//! The recent analyses that follow-up commands refer to by id: a short
//! history, oldest first, that forgets the oldest case when it is full.
use vstd::prelude::*;

verus! {

/// How many analyses the history keeps.
pub const CASE_CAPACITY: usize = 8;

/// The decimal digits of `n`.
pub open spec fn decimal(n: nat) -> Seq<char>
    decreases n,
{
    if n < 10 {
        seq![digit_of(n)]
    } else {
        decimal(n / 10).push(digit_of(n % 10))
    }
}

/// The character of a decimal digit.
pub open spec fn digit_of(d: nat) -> char {
    if d == 0 {
        '0'
    } else if d == 1 {
        '1'
    } else if d == 2 {
        '2'
    } else if d == 3 {
        '3'
    } else if d == 4 {
        '4'
    } else if d == 5 {
        '5'
    } else if d == 6 {
        '6'
    } else if d == 7 {
        '7'
    } else if d == 8 {
        '8'
    } else {
        '9'
    }
}

fn digit_char(d: u64) -> (c: char)
    requires
        d < 10,
    ensures
        c == digit_of(d as nat),
{
    match d {
        0 => '0',
        1 => '1',
        2 => '2',
        3 => '3',
        4 => '4',
        5 => '5',
        6 => '6',
        7 => '7',
        8 => '8',
        _ => '9',
    }
}

fn push_decimal(out: &mut Vec<char>, n: u64)
    ensures
        final(out)@ == old(out)@ + decimal(n as nat),
    decreases n,
{
    if n < 10 {
        out.push(digit_char(n));
        assert(decimal(n as nat) =~= seq![digit_of(n as nat)]);
    } else {
        push_decimal(out, n / 10);
        out.push(digit_char(n % 10));
    }
}

/// The id of the `n`th analysis: `case-` and `n` in decimal.
pub open spec fn case_id_spec(n: nat) -> Seq<char> {
    "case-"@ + decimal(n)
}

pub fn case_id(n: u64) -> (r: String)
    ensures
        r@ == case_id_spec(n as nat),
{
    let mut out: Vec<char> = Vec::new();
    crate::codec::push_str(&mut out, "case-");
    push_decimal(&mut out, n);
    crate::strings::string_from_chars(out.as_slice())
}

/// Recent analyses by id, oldest first.
pub struct CaseHistory<T> {
    entries: Vec<(String, T)>,
}

/// The history as ids and items.
pub open spec fn entry_views<T>(entries: Seq<(String, T)>) -> Seq<(Seq<char>, T)> {
    entries.map_values(|e: (String, T)| (e.0@, e.1))
}

/// The history after remembering `entry`: the oldest case is forgotten when
/// `CASE_CAPACITY` cases are already kept.
pub open spec fn remembered<T>(cases: Seq<(Seq<char>, T)>, entry: (Seq<char>, T)) -> Seq<(Seq<char>, T)> {
    if cases.len() >= CASE_CAPACITY {
        cases.drop_first().push(entry)
    } else {
        cases.push(entry)
    }
}

/// The position of the first case with id `id`, if any.
pub open spec fn first_with<T>(cases: Seq<(Seq<char>, T)>, id: Seq<char>) -> Option<int> {
    if exists|i: int| 0 <= i < cases.len() && (#[trigger] cases[i]).0 == id {
        let i = choose|i: int|
            0 <= i < cases.len() && (#[trigger] cases[i]).0 == id && forall|j: int| 0 <= j < i ==> (#[trigger] cases[j]).0 != id;
        Some(i)
    } else {
        None
    }
}

impl<T> CaseHistory<T> {
    pub closed spec fn cases(&self) -> Seq<(Seq<char>, T)> {
        entry_views(self.entries@)
    }

    /// An empty history.
    pub fn new() -> (r: Self)
        ensures
            r.cases() == Seq::<(Seq<char>, T)>::empty(),
    {
        let r = CaseHistory { entries: Vec::new() };
        assert(r.cases() =~= Seq::<(Seq<char>, T)>::empty());
        r
    }

    /// The number of cases kept.
    pub fn len(&self) -> (r: usize)
        ensures
            r == self.cases().len(),
    {
        self.entries.len()
    }

    /// Keeps a new case, forgetting the oldest one when the history is full.
    pub fn remember(&mut self, id: String, item: T)
        ensures
            final(self).cases() == remembered(old(self).cases(), (id@, item)),
    {
        let ghost before = self.entries@;
        if self.entries.len() >= CASE_CAPACITY {
            self.entries.remove(0);
            assert(self.entries@ =~= before.drop_first());
        }
        let ghost id_view = id@;
        self.entries.push((id, item));
        proof {
            if before.len() >= CASE_CAPACITY {
                assert(entry_views(self.entries@) =~= entry_views(before).drop_first().push((id_view, item)));
            } else {
                assert(entry_views(self.entries@) =~= entry_views(before).push((id_view, item)));
            }
        }
    }

    /// The item of the first kept case with id `id`.
    pub fn lookup(&self, id: &str) -> (r: Option<&T>)
        ensures
            match first_with(self.cases(), id@) {
                Some(i) => r == Some(&self.cases()[i].1),
                None => r is None,
            },
    {
        let mut i: usize = 0;
        while i < self.entries.len()
            invariant
                i <= self.entries@.len(),
                forall|j: int| 0 <= j < i ==> (#[trigger] self.cases()[j]).0 != id@,
            decreases self.entries@.len() - i,
        {
            if crate::strings::str_equal(self.entries[i].0.as_str(), id) {
                proof {
                    assert(self.cases()[i as int].0 == id@);
                    let k = choose|k: int|
                        0 <= k < self.cases().len() && (#[trigger] self.cases()[k]).0 == id@ && forall|j: int|
                            0 <= j < k ==> (#[trigger] self.cases()[j]).0 != id@;
                    if k < i {
                    } else if k > i {
                        assert(self.cases()[i as int].0 != id@);
                    }
                }
                return Some(&self.entries[i].1);
            }
            i = i + 1;
        }
        None
    }
}

/// The history never holds more than `CASE_CAPACITY` cases, and a case
/// remembered under a fresh id is found by that id.
pub proof fn lemma_remember_then_lookup<T>(cases: Seq<(Seq<char>, T)>, id: Seq<char>, item: T)
    requires
        cases.len() <= CASE_CAPACITY,
        forall|i: int| 0 <= i < cases.len() ==> (#[trigger] cases[i]).0 != id,
    ensures
        remembered(cases, (id, item)).len() <= CASE_CAPACITY,
        first_with(remembered(cases, (id, item)), id) == Some(remembered(cases, (id, item)).len() - 1),
        remembered(cases, (id, item)).last() == (id, item),
{
    let r = remembered(cases, (id, item));
    let n = r.len() - 1;
    assert(r[n].0 == id);
    assert forall|j: int| 0 <= j < n implies (#[trigger] r[j]).0 != id by {
        if cases.len() >= CASE_CAPACITY {
            assert(r[j] == cases[j + 1]);
        } else {
            assert(r[j] == cases[j]);
        }
    }
    let k = choose|k: int| 0 <= k < r.len() && (#[trigger] r[k]).0 == id && forall|j: int| 0 <= j < k ==> (#[trigger] r[j]).0 != id;
    if k < n {
        assert(r[k].0 != id);
    }
}

} // verus!
