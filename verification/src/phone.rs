//! An append-only, in-memory phone book.
//!
//! Each entry carries a name, a number in the fixed `DDD-DDD-DDDD` format,
//! and a listed flag.  Insertion enforces three rules: names are unique,
//! numbers are well formed, and a number is listed at most once.  Lookups
//! answer only from listed entries; the area-code query scans every entry.
use crate::strutil::dash_prefixed;
use crate::strutil::starts_with_dashed;
use crate::strutil::str_eq;
use vstd::prelude::*;
use vstd::string::StrSliceExecFns;

verus! {

/// A single phone book entry.
#[derive(Debug, Clone)]
pub struct PhoneEntry {
    pub name: String,
    pub number: String,
    pub is_listed: bool,
}

/// True when `c` is an ASCII decimal digit.
pub open spec fn is_digit(c: char) -> bool {
    '0' <= c && c <= '9'
}

/// The fixed `DDD-DDD-DDDD` number format: twelve characters, hyphens at
/// positions 3 and 7, ASCII digits everywhere else.
pub open spec fn valid_number(s: Seq<char>) -> bool {
    &&& s.len() == 12
    &&& s[3] == '-'
    &&& s[7] == '-'
    &&& forall|i: int| 0 <= i < 12 && i != 3 && i != 7 ==> is_digit(#[trigger] s[i])
}

/// True when some entry of `es` carries the name `name`.
pub open spec fn name_present(es: Seq<PhoneEntry>, name: Seq<char>) -> bool {
    exists|i: int| 0 <= i < es.len() && (#[trigger] es[i]).name@ == name
}

/// True when the entry `e` is listed under the name `name`.
pub open spec fn listed_match(e: PhoneEntry, name: Seq<char>) -> bool {
    e.name@ == name && e.is_listed
}

/// True when the entry `e` is listed and carries the number `num`.
pub open spec fn listed_num_match(e: PhoneEntry, num: Seq<char>) -> bool {
    e.number@ == num && e.is_listed
}

/// True when some entry of `es` is listed and carries the number `num`.
pub open spec fn listed_number_present(es: Seq<PhoneEntry>, num: Seq<char>) -> bool {
    exists|i: int| 0 <= i < es.len() && listed_num_match(#[trigger] es[i], num)
}

/// Whether `add(name, number, is_listed)` succeeds against the entries `es`:
/// the name must be new, the number well formed, and, for a listed entry,
/// the number not listed already.
pub open spec fn add_accepted(
    es: Seq<PhoneEntry>,
    name: Seq<char>,
    number: Seq<char>,
    is_listed: bool,
) -> bool {
    &&& !name_present(es, name)
    &&& valid_number(number)
    &&& !(is_listed && listed_number_present(es, number))
}

/// The invariants that `add` enforces: unique names, well-formed numbers,
/// and at most one listed entry per number.
pub open spec fn entries_wf(es: Seq<PhoneEntry>) -> bool {
    &&& forall|i: int, j: int|
        0 <= i < j < es.len() ==> (#[trigger] es[i]).name@ != (#[trigger] es[j]).name@
    &&& forall|i: int| 0 <= i < es.len() ==> valid_number((#[trigger] es[i]).number@)
    &&& forall|i: int, j: int|
        0 <= i < j < es.len() && (#[trigger] es[i]).is_listed && (#[trigger] es[j]).is_listed
            ==> es[i].number@ != es[j].number@
}

/// The names of the entries of `es` whose number starts with `ac` followed
/// by a hyphen, in insertion order, listed or not.
pub open spec fn ac_names(es: Seq<PhoneEntry>, ac: Seq<char>) -> Seq<Seq<char>>
    decreases es.len(),
{
    if es.len() == 0 {
        Seq::empty()
    } else {
        let rest = ac_names(es.drop_last(), ac);
        if dash_prefixed(es.last().number@, ac) {
            rest.push(es.last().name@)
        } else {
            rest
        }
    }
}

/// PhoneBook holds name/number pairs and whether each is listed.
#[derive(Debug)]
pub struct PhoneBook {
    entries: Vec<PhoneEntry>,
}

impl Default for PhoneBook {
    /// The default PhoneBook is empty.
    fn default() -> (book: Self)
        ensures
            book@ == Seq::<PhoneEntry>::empty(),
            book.wf(),
    {
        PhoneBook::new()
    }
}

impl View for PhoneBook {
    type V = Seq<PhoneEntry>;

    closed spec fn view(&self) -> Seq<PhoneEntry> {
        self.entries@
    }
}

impl PhoneBook {
    /// The insertion rules hold of every reachable PhoneBook.
    pub open spec fn wf(&self) -> bool {
        entries_wf(self@)
    }

    /// Constructor: create an empty PhoneBook.
    pub fn new() -> (book: Self)
        ensures
            book@ == Seq::<PhoneEntry>::empty(),
            book.wf(),
    {
        PhoneBook { entries: Vec::new() }
    }

    /// Validates the `DDD-DDD-DDDD` phone number format.
    fn is_valid_number(number: &str) -> (r: bool)
        ensures
            r == valid_number(number@),
    {
        if number.unicode_len() != 12 {
            return false;
        }
        let mut i: usize = 0;
        while i < 12
            invariant
                number@.len() == 12,
                0 <= i <= 12,
                forall|j: int|
                    0 <= j < i ==> if j == 3 || j == 7 {
                        number@[j] == '-'
                    } else {
                        is_digit(number@[j])
                    },
            decreases 12 - i,
        {
            let c = number.get_char(i);
            if i == 3 || i == 7 {
                if c != '-' {
                    return false;
                }
            } else {
                if !('0' <= c && c <= '9') {
                    return false;
                }
            }
            i += 1;
        }
        true
    }

    /// Attempts to add a new entry.
    ///
    /// The entry is appended exactly when the name is not already present,
    /// the number matches `DDD-DDD-DDDD`, and a listed entry does not reuse
    /// an already listed number; otherwise the book is unchanged.
    pub fn add(&mut self, name: String, number: String, is_listed: bool) -> (r: bool)
        ensures
            r == add_accepted(old(self)@, name@, number@, is_listed),
            !r ==> final(self)@ == old(self)@,
            r ==> final(self)@.len() == old(self)@.len() + 1,
            r ==> forall|i: int| 0 <= i < old(self)@.len() ==> final(self)@[i] == old(self)@[i],
            r ==> final(self)@.last().name@ == name@ && final(self)@.last().number@ == number@
                && final(self)@.last().is_listed == is_listed,
            old(self).wf() ==> final(self).wf(),
    {
        let n = self.entries.len();
        let mut i: usize = 0;
        while i < n
            invariant
                *self == *old(self),
                n == self@.len(),
                0 <= i <= n,
                forall|j: int| 0 <= j < i ==> (#[trigger] self@[j]).name@ != name@,
            decreases n - i,
        {
            if str_eq(self.entries[i].name.as_str(), name.as_str()) {
                return false;
            }
            i += 1;
        }
        if !Self::is_valid_number(number.as_str()) {
            return false;
        }
        if is_listed {
            let mut j: usize = 0;
            while j < n
                invariant
                    *self == *old(self),
                    n == self@.len(),
                    0 <= j <= n,
                    is_listed,
                    valid_number(number@),
                    forall|k: int| 0 <= k < n ==> (#[trigger] self@[k]).name@ != name@,
                    forall|k: int| 0 <= k < j ==> !listed_num_match(#[trigger] self@[k], number@),
                decreases n - j,
            {
                if self.entries[j].is_listed && str_eq(self.entries[j].number.as_str(), number.as_str()) {
                    proof {
                        assert(listed_num_match(self@[j as int], number@));
                        assert(listed_number_present(old(self)@, number@));
                    }
                    return false;
                }
                j += 1;
            }
        }
        self.entries.push(PhoneEntry { name, number, is_listed });
        proof {
            let olds = old(self)@;
            let news = self@;
            assert(news.last().name@ == name@);
            if entries_wf(olds) {
                assert forall|a: int, b: int| 0 <= a < b < news.len() implies (#[trigger] news[a]).name@
                    != (#[trigger] news[b]).name@ by {
                    if b == news.len() - 1 {
                        assert(news[a] == olds[a]);
                    }
                }
                assert forall|a: int| 0 <= a < news.len() implies valid_number(
                    (#[trigger] news[a]).number@,
                ) by {
                    if a < news.len() - 1 {
                        assert(news[a] == olds[a]);
                    }
                }
                assert forall|a: int, b: int|
                    0 <= a < b < news.len() && (#[trigger] news[a]).is_listed && (
                #[trigger] news[b]).is_listed implies news[a].number@ != news[b].number@ by {
                    if b == news.len() - 1 {
                        assert(news[a] == olds[a]);
                        assert(!listed_num_match(olds[a], number@));
                    }
                }
            }
        }
        true
    }

    /// Looks up `name` and returns the number ONLY if the entry is listed.
    ///
    /// Otherwise returns None.
    pub fn lookup(&self, name: &str) -> (r: Option<String>)
        ensures
            match r {
                Some(num) => exists|i: int|
                    0 <= i < self@.len() && #[trigger] listed_match(self@[i], name@) && num@
                        == self@[i].number@ && (forall|j: int|
                        0 <= j < i ==> !(#[trigger] listed_match(self@[j], name@))),
                None => forall|i: int|
                    0 <= i < self@.len() ==> !(#[trigger] listed_match(self@[i], name@)),
            },
    {
        let n = self.entries.len();
        let mut i: usize = 0;
        while i < n
            invariant
                n == self@.len(),
                0 <= i <= n,
                forall|j: int| 0 <= j < i ==> !(#[trigger] listed_match(self@[j], name@)),
            decreases n - i,
        {
            if self.entries[i].is_listed && str_eq(self.entries[i].name.as_str(), name) {
                assert(listed_match(self@[i as int], name@));
                return Some(self.entries[i].number.clone());
            }
            i += 1;
        }
        None
    }

    /// Looks up `num` and returns the associated name ONLY if the entry is
    /// listed.
    ///
    /// Otherwise returns None.
    pub fn lookup_by_num(&self, num: &str) -> (r: Option<String>)
        ensures
            match r {
                Some(name) => exists|i: int|
                    0 <= i < self@.len() && #[trigger] listed_num_match(self@[i], num@) && name@
                        == self@[i].name@ && (forall|j: int|
                        0 <= j < i ==> !(#[trigger] listed_num_match(self@[j], num@))),
                None => forall|i: int|
                    0 <= i < self@.len() ==> !(#[trigger] listed_num_match(self@[i], num@)),
            },
    {
        let n = self.entries.len();
        let mut i: usize = 0;
        while i < n
            invariant
                n == self@.len(),
                0 <= i <= n,
                forall|j: int| 0 <= j < i ==> !(#[trigger] listed_num_match(self@[j], num@)),
            decreases n - i,
        {
            if self.entries[i].is_listed && str_eq(self.entries[i].number.as_str(), num) {
                assert(listed_num_match(self@[i as int], num@));
                return Some(self.entries[i].name.clone());
            }
            i += 1;
        }
        None
    }

    /// Returns all names (listed and unlisted) whose numbers begin with
    /// `areacode` followed by a hyphen, in insertion order.
    pub fn names_by_ac(&self, areacode: &str) -> (r: Vec<String>)
        ensures
            r@.map_values(|s: String| s@) == ac_names(self@, areacode@),
    {
        let n = self.entries.len();
        let mut result: Vec<String> = Vec::new();
        let mut i: usize = 0;
        while i < n
            invariant
                n == self@.len(),
                0 <= i <= n,
                result@.map_values(|s: String| s@) == ac_names(self@.take(i as int), areacode@),
            decreases n - i,
        {
            let ghost prev = result@.map_values(|s: String| s@);
            if starts_with_dashed(self.entries[i].number.as_str(), areacode) {
                result.push(self.entries[i].name.clone());
            }
            proof {
                let t = self@.take(i + 1 as int);
                assert(t.drop_last() =~= self@.take(i as int));
                assert(t.last() == self@[i as int]);
                if dash_prefixed(self@[i as int].number@, areacode@) {
                    assert(result@.map_values(|s: String| s@) =~= prev.push(
                        self@[i as int].name@,
                    ));
                } else {
                    assert(result@.map_values(|s: String| s@) =~= prev);
                }
            }
            i += 1;
        }
        proof {
            assert(self@.take(n as int) =~= self@);
        }
        result
    }
}

/// Law: once an entry has been added, a further `add` under the same name is
/// refused, whatever number and listed flag it brings.
pub proof fn lemma_duplicate_name_rejected(
    es: Seq<PhoneEntry>,
    e: PhoneEntry,
    number2: Seq<char>,
    listed2: bool,
)
    ensures
        !add_accepted(es.push(e), e.name@, number2, listed2),
{
    assert(es.push(e)[es.len() as int] == e);
    assert(name_present(es.push(e), e.name@));
}

/// Law: once a number has been added as listed, a second listed entry with
/// that number is refused under any fresh name, while an unlisted duplicate
/// of the number is accepted.
pub proof fn lemma_listed_number_exclusive(es: Seq<PhoneEntry>, e: PhoneEntry, name2: Seq<char>)
    requires
        e.is_listed,
        add_accepted(es, e.name@, e.number@, true),
        !name_present(es.push(e), name2),
    ensures
        !add_accepted(es.push(e), name2, e.number@, true),
        add_accepted(es.push(e), name2, e.number@, false),
{
    assert(es.push(e)[es.len() as int] == e);
    assert(listed_num_match(e, e.number@));
    assert(listed_number_present(es.push(e), e.number@));
}

/// Law: a malformed number is refused whatever the state of the book and
/// whatever the name and listed flag.
pub proof fn lemma_malformed_number_rejected(
    es: Seq<PhoneEntry>,
    name: Seq<char>,
    number: Seq<char>,
    listed: bool,
)
    requires
        !valid_number(number),
    ensures
        !add_accepted(es, name, number, listed),
{
}

/// Law: in a well-formed book, an unlisted entry hides its name: no entry is
/// listed under that name, so `lookup` returns nothing for it.
pub proof fn lemma_unlisted_name_hidden(es: Seq<PhoneEntry>, k: int, name: Seq<char>)
    requires
        entries_wf(es),
        0 <= k < es.len(),
        es[k].name@ == name,
        !es[k].is_listed,
    ensures
        forall|i: int| 0 <= i < es.len() ==> !(#[trigger] listed_match(es[i], name)),
{
    assert forall|i: int| 0 <= i < es.len() implies !(#[trigger] listed_match(es[i], name)) by {
        if i != k && listed_match(es[i], name) {
            if i < k {
                assert(es[i].name@ != es[k].name@);
            } else {
                assert(es[k].name@ != es[i].name@);
            }
        }
    }
}

/// Law: every entry whose number carries the area code contributes its name
/// to `ac_names`, listed or not.
pub proof fn lemma_ac_names_complete(es: Seq<PhoneEntry>, ac: Seq<char>, k: int)
    requires
        0 <= k < es.len(),
        dash_prefixed(es[k].number@, ac),
    ensures
        ac_names(es, ac).contains(es[k].name@),
    decreases es.len(),
{
    if k == es.len() - 1 {
        assert(ac_names(es, ac).last() == es[k].name@);
    } else {
        lemma_ac_names_complete(es.drop_last(), ac, k);
        let rest = ac_names(es.drop_last(), ac);
        let idx = choose|i: int| 0 <= i < rest.len() && rest[i] == es[k].name@;
        if dash_prefixed(es.last().number@, ac) {
            assert(ac_names(es, ac)[idx] == es[k].name@);
        }
    }
}

} // verus!
