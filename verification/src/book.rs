//! The phone book: an ordered collection of name/number entries with a
//! listed/unlisted flag, validated insertion, and scan-order lookups.

use vstd::prelude::*;
use crate::text::{prefix_of, str_eq, str_prefix};

verus! {

/// Mathematical view of one phone-book entry.
pub struct EntryView {
    pub name: Seq<char>,
    pub number: Seq<char>,
    pub listed: bool,
}

/// A single phone book entry.
#[derive(Debug, Clone)]
pub struct PhoneEntry {
    pub name: String,
    pub number: String,
    pub is_listed: bool,
}

impl View for PhoneEntry {
    type V = EntryView;

    open spec fn view(&self) -> EntryView {
        EntryView { name: self.name@, number: self.number@, listed: self.is_listed }
    }
}

/// PhoneBook holds name/number pairs and whether each is listed.
#[derive(Debug)]
pub struct PhoneBook {
    pub entries: Vec<PhoneEntry>,
}

impl View for PhoneBook {
    type V = Seq<EntryView>;

    open spec fn view(&self) -> Seq<EntryView> {
        Seq::new(self.entries@.len(), |i: int| self.entries@[i]@)
    }
}

/// `c` is a decimal digit.
pub open spec fn is_digit(c: char) -> bool {
    48 <= c as u32 && c as u32 <= 57
}

/// A well-formed number reads `NNN-NNN-NNNN`: twelve characters, dashes at
/// positions 3 and 7, decimal digits everywhere else.
pub open spec fn valid_number(s: Seq<char>) -> bool {
    &&& s.len() == 12
    &&& s[3] == '-'
    &&& s[7] == '-'
    &&& forall|i: int| 0 <= i < 12 && i != 3 && i != 7 ==> is_digit(#[trigger] s[i])
}

/// Some entry already carries this name.
pub open spec fn has_name(s: Seq<EntryView>, name: Seq<char>) -> bool {
    exists|i: int| 0 <= i < s.len() && (#[trigger] s[i]).name == name
}

/// Some listed entry already carries this number.
pub open spec fn has_listed_number(s: Seq<EntryView>, number: Seq<char>) -> bool {
    exists|i: int| 0 <= i < s.len() && (#[trigger] s[i]).number == number && s[i].listed
}

/// Exactly when an insertion succeeds: the name is fresh, a listed entry may
/// not repeat an already-listed number, and the number is well-formed.
pub open spec fn can_add(
    s: Seq<EntryView>,
    name: Seq<char>,
    number: Seq<char>,
    listed: bool,
) -> bool {
    &&& !has_name(s, name)
    &&& !(listed && has_listed_number(s, number))
    &&& valid_number(number)
}

/// The invariant every reachable phone book satisfies: names are unique,
/// at most one listed entry per number, and every stored number is
/// well-formed.
pub open spec fn wf_entries(s: Seq<EntryView>) -> bool {
    &&& forall|i: int, j: int|
        0 <= i < j < s.len() ==> (#[trigger] s[i]).name != (#[trigger] s[j]).name
    &&& forall|i: int, j: int|
        0 <= i < j < s.len() && (#[trigger] s[i]).listed && (#[trigger] s[j]).listed
            ==> s[i].number != s[j].number
    &&& forall|i: int| 0 <= i < s.len() ==> valid_number((#[trigger] s[i]).number)
}

/// What `lookup` returns: the number of the first entry carrying the name,
/// and only if that entry is listed.
pub open spec fn lookup_name_spec(s: Seq<EntryView>, name: Seq<char>) -> Option<Seq<char>>
    decreases s.len(),
{
    if s.len() == 0 {
        None
    } else if s[0].name == name {
        if s[0].listed {
            Some(s[0].number)
        } else {
            None
        }
    } else {
        lookup_name_spec(s.drop_first(), name)
    }
}

/// What `lookup_by_num` returns: the name of the first entry carrying the
/// number, and only if that entry is listed.
pub open spec fn lookup_num_spec(s: Seq<EntryView>, number: Seq<char>) -> Option<Seq<char>>
    decreases s.len(),
{
    if s.len() == 0 {
        None
    } else if s[0].number == number {
        if s[0].listed {
            Some(s[0].name)
        } else {
            None
        }
    } else {
        lookup_num_spec(s.drop_first(), number)
    }
}

/// What `names_by_ac` returns: the names of all entries, in insertion order,
/// whose number starts with the given prefix.
pub open spec fn names_ac_spec(s: Seq<EntryView>, ac: Seq<char>) -> Seq<Seq<char>>
    decreases s.len(),
{
    if s.len() == 0 {
        Seq::empty()
    } else {
        names_ac_spec(s.drop_last(), ac) + if prefix_of(ac, s.last().number) {
            seq![s.last().name]
        } else {
            Seq::empty()
        }
    }
}

/// Dropping the first entry of a well-formed book leaves a well-formed book.
proof fn lemma_wf_drop_first(s: Seq<EntryView>)
    requires
        wf_entries(s),
        s.len() > 0,
    ensures
        wf_entries(s.drop_first()),
{
    let t = s.drop_first();
    assert forall|i: int, j: int| 0 <= i < j < t.len() implies (#[trigger] t[i]).name != (
    #[trigger] t[j]).name by {
        assert(s[i + 1].name != s[j + 1].name);
    }
    assert forall|i: int, j: int|
        0 <= i < j < t.len() && (#[trigger] t[i]).listed && (#[trigger] t[j]).listed implies
        t[i].number != t[j].number by {
        assert(!(s[i + 1].listed && s[j + 1].listed && s[i + 1].number == s[j + 1].number));
    }
    assert forall|i: int| 0 <= i < t.len() implies valid_number((#[trigger] t[i]).number) by {
        assert(valid_number(s[i + 1].number));
    }
}

/// Law: in a well-formed book, looking up the name of an unlisted entry
/// returns absence, even though the name is present.
pub proof fn lemma_lookup_unlisted(s: Seq<EntryView>, i: int)
    requires
        wf_entries(s),
        0 <= i < s.len(),
        !s[i].listed,
    ensures
        lookup_name_spec(s, s[i].name) is None,
    decreases s.len(),
{
    if s[0].name == s[i].name {
        if i != 0 {
            assert(s[0].name != s[i].name);
            assert(false);
        }
    } else {
        lemma_wf_drop_first(s);
        let t = s.drop_first();
        assert(t[i - 1] == s[i]);
        lemma_lookup_unlisted(t, i - 1);
    }
}

/// Law: looking up the number of an unlisted entry returns absence when no
/// other entry shares that number.
pub proof fn lemma_lookup_by_num_unlisted(s: Seq<EntryView>, i: int)
    requires
        0 <= i < s.len(),
        !s[i].listed,
        forall|j: int| 0 <= j < s.len() && j != i ==> (#[trigger] s[j]).number != s[i].number,
    ensures
        lookup_num_spec(s, s[i].number) is None,
    decreases s.len(),
{
    if s[0].number == s[i].number {
        if i != 0 {
            assert(s[0].number != s[i].number);
            assert(false);
        }
    } else {
        let t = s.drop_first();
        assert(t[i - 1] == s[i]);
        assert forall|j: int| 0 <= j < t.len() && j != i - 1 implies (#[trigger] t[j]).number != t[
            i - 1].number by {
            assert(s[j + 1].number != s[i].number);
        }
        lemma_lookup_by_num_unlisted(t, i - 1);
    }
}

/// Law: the area-code scan returns exactly the names, in insertion order, of
/// the entries (listed or not, duplicates preserved) whose number starts with
/// the prefix.
pub proof fn lemma_names_ac_filters(s: Seq<EntryView>, ac: Seq<char>)
    ensures
        names_ac_spec(s, ac) == s.filter(|e: EntryView| prefix_of(ac, e.number)).map_values(
            |e: EntryView| e.name,
        ),
    decreases s.len(),
{
    let p = |e: EntryView| prefix_of(ac, e.number);
    let f = |e: EntryView| e.name;
    if s.len() == 0 {
        assert(s.filter(p) =~= Seq::<EntryView>::empty());
        assert(s.filter(p).map_values(f) =~= Seq::<Seq<char>>::empty());
    } else {
        let t = s.drop_last();
        lemma_names_ac_filters(t, ac);
        assert(t.push(s.last()) =~= s);
        t.lemma_filter_push(s.last(), p);
        t.filter(p).lemma_push_map_commute(f, s.last());
        if p(s.last()) {
            assert(names_ac_spec(s, ac) =~= t.filter(p).map_values(f).push(s.last().name));
        } else {
            assert(names_ac_spec(s, ac) =~= t.filter(p).map_values(f));
        }
    }
}

/// Law: adding an entry whose name is already present must fail, whatever
/// the number and flag.
pub proof fn lemma_add_duplicate_name(s: Seq<EntryView>, i: int, number: Seq<char>, listed: bool)
    requires
        0 <= i < s.len(),
    ensures
        !can_add(s, s[i].name, number, listed),
{
    assert(0 <= i < s.len() && (s[i]).name == s[i].name);
}

/// Law: adding a listed entry whose number is already carried by a listed
/// entry must fail.
pub proof fn lemma_add_listed_collision(s: Seq<EntryView>, i: int, name: Seq<char>)
    requires
        0 <= i < s.len(),
        s[i].listed,
    ensures
        !can_add(s, name, s[i].number, true),
{
    assert(0 <= i < s.len() && (s[i]).number == s[i].number && s[i].listed);
}

/// Law: an unlisted entry with a fresh name and a well-formed number is
/// always accepted, whatever numbers are already present.
pub proof fn lemma_add_unlisted_coexists(s: Seq<EntryView>, name: Seq<char>, number: Seq<char>)
    requires
        !has_name(s, name),
        valid_number(number),
    ensures
        can_add(s, name, number, false),
{
}

impl PhoneBook {
    /// The phone book's invariant, stated over its view.
    pub open spec fn wf(&self) -> bool {
        wf_entries(self@)
    }

    /// Constructor: create an empty PhoneBook.
    pub fn new() -> (r: PhoneBook)
        ensures
            r@ == Seq::<EntryView>::empty(),
            r.wf(),
    {
        let r = PhoneBook { entries: Vec::new() };
        proof {
            assert(r@ =~= Seq::<EntryView>::empty());
        }
        r
    }

    /// A number is accepted exactly when it reads `NNN-NNN-NNNN` with decimal
    /// digit groups.
    pub fn validate_number(number: &str) -> (r: bool)
        ensures
            r == valid_number(number@),
    {
        let n = number.unicode_len();
        if n != 12 {
            return false;
        }
        let mut i: usize = 0;
        while i < 12
            invariant
                number@.len() == 12,
                i <= 12,
                forall|j: int|
                    0 <= j < i ==> if j == 3 || j == 7 {
                        number@[j] == '-'
                    } else {
                        is_digit(number@[j])
                    },
            decreases 12 - i,
        {
            let c = number.get_char(i);
            if i == 3 || i == 7 {
                if c != '-' {
                    return false;
                }
            } else {
                let d = c as u32;
                if d < 48 || d > 57 {
                    return false;
                }
            }
            i += 1;
        }
        true
    }

    /// Attempts to add a new entry. Succeeds, appending the entry at the end,
    /// exactly when the name is fresh, a listed entry does not repeat an
    /// already-listed number, and the number is well-formed; otherwise the
    /// book is unchanged. Preserves the book's invariant.
    pub fn add(&mut self, name: String, number: String, is_listed: bool) -> (r: bool)
        ensures
            r == can_add(old(self)@, name@, number@, is_listed),
            r ==> final(self)@ == old(self)@.push(
                EntryView { name: name@, number: number@, listed: is_listed },
            ),
            !r ==> final(self)@ == old(self)@,
            old(self).wf() ==> final(self).wf(),
    {
        let n = self.entries.len();
        let mut idx: usize = 0;
        while idx < n
            invariant
                *self == *old(self),
                n == self.entries.len(),
                idx <= n,
                forall|j: int| 0 <= j < idx ==> (#[trigger] old(self)@[j]).name != name@,
                forall|j: int|
                    0 <= j < idx ==> !((#[trigger] old(self)@[j]).number == number@
                        && old(self)@[j].listed && is_listed),
            decreases n - idx,
        {
            let e = &self.entries[idx];
            proof {
                assert(old(self)@[idx as int] == self.entries@[idx as int]@);
            }
            if str_eq(e.name.as_str(), name.as_str()) {
                proof {
                    assert((old(self)@[idx as int]).name == name@);
                    assert(has_name(old(self)@, name@));
                }
                return false;
            }
            if str_eq(e.number.as_str(), number.as_str()) && e.is_listed && is_listed {
                proof {
                    assert((old(self)@[idx as int]).number == number@ && old(
                        self,
                    )@[idx as int].listed);
                    assert(has_listed_number(old(self)@, number@));
                }
                return false;
            }
            idx += 1;
        }
        proof {
            assert(!has_name(old(self)@, name@));
            assert(!(is_listed && has_listed_number(old(self)@, number@)));
        }
        if !Self::validate_number(number.as_str()) {
            return false;
        }
        let ghost pre = self@;
        let ghost new_view = EntryView { name: name@, number: number@, listed: is_listed };
        self.entries.push(PhoneEntry { name, number, is_listed });
        proof {
            assert(self@ =~= pre.push(new_view));
            if old(self).wf() {
                assert forall|i: int, j: int| 0 <= i < j < self@.len() implies
                    (#[trigger] self@[i]).name != (#[trigger] self@[j]).name by {
                    if j < pre.len() {
                        assert(pre[i].name != pre[j].name);
                    }
                }
                assert forall|i: int, j: int|
                    0 <= i < j < self@.len() && (#[trigger] self@[i]).listed
                        && (#[trigger] self@[j]).listed implies self@[i].number != self@[j].number by {
                    if j < pre.len() {
                        assert(!(pre[i].listed && pre[j].listed && pre[i].number == pre[j].number));
                    }
                }
                assert forall|i: int| 0 <= i < self@.len() implies
                    valid_number((#[trigger] self@[i]).number) by {
                    if i < pre.len() {
                        assert(valid_number(pre[i].number));
                    }
                }
            }
        }
        true
    }

    /// Looks up `name` and returns the number of the first matching entry
    /// ONLY if that entry is listed; otherwise returns None.
    pub fn lookup(&self, name: &str) -> (r: Option<String>)
        ensures
            match r {
                Some(num) => lookup_name_spec(self@, name@) == Some(num@),
                None => lookup_name_spec(self@, name@) is None,
            },
    {
        let n = self.entries.len();
        let mut idx: usize = 0;
        proof {
            assert(self@.skip(0) =~= self@);
        }
        while idx < n
            invariant
                n == self.entries.len(),
                idx <= n,
                lookup_name_spec(self@, name@) == lookup_name_spec(
                    self@.skip(idx as int),
                    name@,
                ),
            decreases n - idx,
        {
            let e = &self.entries[idx];
            proof {
                assert(self@.skip(idx as int)[0] == self@[idx as int]);
            }
            if str_eq(e.name.as_str(), name) {
                if e.is_listed {
                    return Some(e.number.clone());
                } else {
                    return None;
                }
            }
            proof {
                assert(self@.skip(idx as int).drop_first() =~= self@.skip(idx as int + 1));
            }
            idx += 1;
        }
        None
    }

    /// Looks up `num` and returns the name of the first matching entry ONLY
    /// if that entry is listed; otherwise returns None.
    pub fn lookup_by_num(&self, num: &str) -> (r: Option<String>)
        ensures
            match r {
                Some(name) => lookup_num_spec(self@, num@) == Some(name@),
                None => lookup_num_spec(self@, num@) is None,
            },
    {
        let n = self.entries.len();
        let mut idx: usize = 0;
        proof {
            assert(self@.skip(0) =~= self@);
        }
        while idx < n
            invariant
                n == self.entries.len(),
                idx <= n,
                lookup_num_spec(self@, num@) == lookup_num_spec(self@.skip(idx as int), num@),
            decreases n - idx,
        {
            let e = &self.entries[idx];
            proof {
                assert(self@.skip(idx as int)[0] == self@[idx as int]);
            }
            if str_eq(e.number.as_str(), num) {
                if e.is_listed {
                    return Some(e.name.clone());
                } else {
                    return None;
                }
            }
            proof {
                assert(self@.skip(idx as int).drop_first() =~= self@.skip(idx as int + 1));
            }
            idx += 1;
        }
        None
    }

    /// Returns all names (listed and unlisted, duplicates preserved, in
    /// insertion order) whose numbers begin with `areacode`.
    pub fn names_by_ac(&self, areacode: &str) -> (r: Vec<String>)
        ensures
            r.deep_view() == names_ac_spec(self@, areacode@),
    {
        let n = self.entries.len();
        let mut result: Vec<String> = Vec::new();
        let mut idx: usize = 0;
        proof {
            assert(result.deep_view() =~= names_ac_spec(self@.take(0), areacode@));
        }
        while idx < n
            invariant
                n == self.entries.len(),
                idx <= n,
                result.deep_view() == names_ac_spec(self@.take(idx as int), areacode@),
            decreases n - idx,
        {
            let e = &self.entries[idx];
            let ghost pre = result.deep_view();
            proof {
                assert(self@.take(idx as int + 1).drop_last() =~= self@.take(idx as int));
                assert(self@.take(idx as int + 1).last() == self@[idx as int]);
            }
            if str_prefix(areacode, e.number.as_str()) {
                result.push(e.name.clone());
                proof {
                    assert(result.deep_view() =~= pre.push(e.name@));
                    assert(result.deep_view() =~= names_ac_spec(
                        self@.take(idx as int + 1),
                        areacode@,
                    ));
                }
            } else {
                proof {
                    assert(result.deep_view() =~= names_ac_spec(
                        self@.take(idx as int + 1),
                        areacode@,
                    ));
                }
            }
            idx += 1;
        }
        proof {
            assert(self@.take(n as int) =~= self@);
        }
        result
    }
}

} // verus!
