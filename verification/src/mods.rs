//! Mod discovery: from the listing of a directory to one record per
//! descriptor file.
//!
//! The caller enumerates the directory and reads the files; what it found
//! arrives here as a [`Scan`]. Which entries count as descriptors, what each
//! record holds and what the whole scan yields is decided here.

use vstd::prelude::*;
use vstd::slice::slice_subrange;
use crate::chars::to_chars;
use crate::descriptor::{extract_value, extracted};
use crate::text::{eq_ignore_ascii_case, equal_ignoring_ascii_case};

verus! {

/// The extension that marks a file as a descriptor.
pub const DESCRIPTOR_EXTENSION: &'static str = "mod";

/// What is known about one mod: its display name, the path of its content
/// and the name of the descriptor file that declares it.
#[derive(Debug, Clone, PartialEq, Eq)]
pub struct ModInfo {
    pub name: String,
    pub path: String,
    pub file: String,
}

/// The mathematical value of a [`ModInfo`].
pub ghost struct ModRecord {
    pub name: Seq<char>,
    pub path: Seq<char>,
    pub file: Seq<char>,
}

impl View for ModInfo {
    type V = ModRecord;

    open spec fn view(&self) -> ModRecord {
        ModRecord { name: self.name@, path: self.path@, file: self.file@ }
    }
}

/// One entry of the scanned directory.
#[derive(Debug, Clone, PartialEq, Eq)]
pub struct Entry {
    /// The entry's file name, without any directory.
    pub file_name: String,
    /// Whether the entry is a regular file.
    pub is_file: bool,
    /// The text of the file; `None` where it was not or could not be read.
    pub content: Option<String>,
}

/// The mathematical value of an [`Entry`].
pub ghost struct EntryFacts {
    pub file_name: Seq<char>,
    pub is_file: bool,
    pub content: Option<Seq<char>>,
}

impl View for Entry {
    type V = EntryFacts;

    open spec fn view(&self) -> EntryFacts {
        EntryFacts {
            file_name: self.file_name@,
            is_file: self.is_file,
            content: match self.content {
                Some(c) => Some(c@),
                None => None,
            },
        }
    }
}

/// What the enumeration of the scan root came to.
#[derive(Debug, Clone, PartialEq, Eq)]
pub enum Scan {
    /// No scan root could be resolved.
    Unresolved,
    /// The scan root does not exist.
    Missing,
    /// The directory could not be enumerated; the message says why.
    Failed(String),
    /// The entries of the directory, in the order of their enumeration.
    Listed(Vec<Entry>),
}

/// The key under which a descriptor gives the display name.
pub open spec fn name_key() -> Seq<char> {
    seq!['n', 'a', 'm', 'e']
}

/// The key under which a descriptor gives the content path.
pub open spec fn path_key() -> Seq<char> {
    seq!['p', 'a', 't', 'h']
}

/// The characters of [`DESCRIPTOR_EXTENSION`].
pub open spec fn descriptor_extension() -> Seq<char> {
    seq!['m', 'o', 'd']
}

/// Whether the file name `name` ends in a dot followed by `ext`, compared
/// without regard to ASCII case, with at least one character before the dot.
///
/// For an `ext` without a dot this says that the extension of `name`, the
/// part after its last dot, is `ext`; a name that only begins with a dot
/// has no extension.
pub open spec fn has_extension(name: Seq<char>, ext: Seq<char>) -> bool {
    let dot = name.len() - ext.len() - 1;
    &&& dot > 0
    &&& name[dot] == '.'
    &&& eq_ignore_ascii_case(name.skip(dot + 1), ext)
}

/// The record of the descriptor file `file` whose text is `content`: a
/// missing name falls back to the file name, a missing path to the empty
/// string.
pub open spec fn record_of(file: Seq<char>, content: Seq<char>) -> ModRecord {
    ModRecord {
        name: match extracted(content, name_key()) {
            Some(v) => v,
            None => file,
        },
        path: match extracted(content, path_key()) {
            Some(v) => v,
            None => Seq::empty(),
        },
        file,
    }
}

impl EntryFacts {
    /// Whether the entry is a descriptor file.
    pub open spec fn is_descriptor(self) -> bool {
        self.is_file && has_extension(self.file_name, descriptor_extension())
    }

    /// The text to parse: a file that could not be read counts as empty.
    pub open spec fn text(self) -> Seq<char> {
        match self.content {
            Some(c) => c,
            None => Seq::empty(),
        }
    }

    /// The record that the entry contributes, if it is a descriptor file.
    pub open spec fn record(self) -> Option<ModRecord> {
        if self.is_descriptor() {
            Some(record_of(self.file_name, self.text()))
        } else {
            None
        }
    }
}

/// The records of a listing: one for each descriptor file, in the order of
/// the entries.
pub open spec fn records(entries: Seq<EntryFacts>) -> Seq<ModRecord> {
    entries.filter_map(|e: EntryFacts| e.record())
}

/// The values of a sequence of entries.
pub open spec fn entry_views(entries: Seq<Entry>) -> Seq<EntryFacts> {
    entries.map_values(|e: Entry| e@)
}

/// The values of a sequence of mods.
pub open spec fn mod_views(mods: Seq<ModInfo>) -> Seq<ModRecord> {
    mods.map_values(|m: ModInfo| m@)
}

/// Whether `name` ends in a dot followed by `ext`, see [`has_extension`].
pub fn ends_with_extension(name: &[char], ext: &[char]) -> (r: bool)
    ensures
        r == has_extension(name@, ext@),
{
    if name.len() < 2 || name.len() - 2 < ext.len() {
        return false;
    }
    let dot: usize = name.len() - ext.len() - 1;
    if name[dot] != '.' {
        return false;
    }
    proof {
        assert(name@.subrange(dot + 1, name@.len() as int) =~= name@.skip(dot + 1));
    }
    equal_ignoring_ascii_case(slice_subrange(name, dot + 1, name.len()), ext)
}

/// Whether a directory entry is a descriptor file: a regular file whose
/// extension is [`DESCRIPTOR_EXTENSION`] in any case.
pub fn is_descriptor_file(is_file: bool, file_name: &str) -> (r: bool)
    ensures
        r == (is_file && has_extension(file_name@, descriptor_extension())),
{
    if !is_file {
        return false;
    }
    let name = to_chars(file_name);
    let ext = to_chars(DESCRIPTOR_EXTENSION);
    proof {
        reveal_strlit("mod");
        assert(ext@ =~= descriptor_extension());
    }
    ends_with_extension(name.as_slice(), ext.as_slice())
}

impl ModInfo {
    /// The record of the descriptor file named `file` with the text
    /// `content`.
    pub fn from_descriptor(file: &str, content: &str) -> (m: ModInfo)
        ensures
            m@ == record_of(file@, content@),
    {
        proof {
            reveal_strlit("name");
            reveal_strlit("path");
            assert("name"@ =~= name_key());
            assert("path"@ =~= path_key());
        }
        let name = match extract_value(content, "name") {
            Some(v) => v,
            None => file.to_owned(),
        };
        let path = match extract_value(content, "path") {
            Some(v) => v,
            None => String::new(),
        };
        ModInfo { name, path, file: file.to_owned() }
    }
}

/// The mods that a scan found.
///
/// A scan root that could not be resolved or does not exist yields no mods;
/// a failed enumeration is passed on with its message and no partial list; a
/// listing yields one record per descriptor file, in the order of the
/// listing.
pub fn list_mods(scan: Scan) -> (r: Result<Vec<ModInfo>, String>)
    ensures
        match scan {
            Scan::Unresolved | Scan::Missing => r is Ok && r->Ok_0@.len() == 0,
            Scan::Failed(message) => r is Err && r->Err_0@ == message@,
            Scan::Listed(entries) => r is Ok && mod_views(r->Ok_0@) == records(
                entry_views(entries@),
            ),
        },
{
    match scan {
        Scan::Unresolved => Ok(Vec::new()),
        Scan::Missing => Ok(Vec::new()),
        Scan::Failed(message) => Err(message),
        Scan::Listed(entries) => Ok(collect_records(&entries)),
    }
}

/// One record per descriptor file among `entries`, in their order.
pub fn collect_records(entries: &Vec<Entry>) -> (mods: Vec<ModInfo>)
    ensures
        mod_views(mods@) == records(entry_views(entries@)),
{
    let ghost facts = entry_views(entries@);
    let mut mods: Vec<ModInfo> = Vec::new();
    let mut i: usize = 0;
    proof {
        assert(mod_views(mods@) =~= records(facts.take(0)));
    }
    while i < entries.len()
        invariant
            i <= entries.len(),
            facts == entry_views(entries@),
            mod_views(mods@) == records(facts.take(i as int)),
        decreases entries.len() - i,
    {
        let entry = &entries[i];
        proof {
            facts.lemma_filter_map_take_succ(|e: EntryFacts| e.record(), i as int);
            assert(facts[i as int] == entry@);
        }
        if is_descriptor_file(entry.is_file, entry.file_name.as_str()) {
            let m = match &entry.content {
                Some(c) => ModInfo::from_descriptor(entry.file_name.as_str(), c.as_str()),
                None => ModInfo::from_descriptor(entry.file_name.as_str(), ""),
            };
            proof {
                reveal_strlit("");
                assert(""@ =~= Seq::<char>::empty());
                assert(mod_views(mods@.push(m)) =~= mod_views(mods@).push(m@));
            }
            mods.push(m);
        }
        i = i + 1;
    }
    proof {
        assert(facts.take(entries@.len() as int) =~= facts);
    }
    mods
}

/// The records of two listings set end to end are the records of the first
/// followed by those of the second.
pub proof fn lemma_records_concat(a: Seq<EntryFacts>, b: Seq<EntryFacts>)
    ensures
        records(a + b) == records(a) + records(b),
    decreases b.len(),
{
    if b.len() == 0 {
        assert(a + b =~= a);
        assert(records(a) + records(b) =~= records(a));
    } else {
        lemma_records_concat(a, b.drop_last());
        assert((a + b).drop_last() =~= a + b.drop_last());
        assert(records(a + b) =~= records(a) + records(b));
    }
}

/// A listing yields exactly one record for each of its descriptor files:
/// none is made up for another entry, and none is dropped.
pub proof fn lemma_one_record_per_descriptor(entries: Seq<EntryFacts>)
    ensures
        records(entries).len() == entries.filter(|e: EntryFacts| e.is_descriptor()).len(),
    decreases entries.len(),
{
    reveal(Seq::filter);
    if entries.len() > 0 {
        lemma_one_record_per_descriptor(entries.drop_last());
    }
}

/// The records of a listing do not depend on the order of enumeration: two
/// listings that hold the same entries, in whatever order, yield the same
/// records up to their order.
pub proof fn lemma_records_of_same_entries(a: Seq<EntryFacts>, b: Seq<EntryFacts>)
    requires
        a.to_multiset() == b.to_multiset(),
    ensures
        records(a).to_multiset() == records(b).to_multiset(),
    decreases a.len(),
{
    broadcast use vstd::seq_lib::group_to_multiset_ensures;

    assert(a.to_multiset().len() == a.len());
    assert(b.to_multiset().len() == b.len());
    if a.len() == 0 {
        assert(a =~= b);
    } else {
        let x = a.last();
        let front = a.drop_last();
        assert(a =~= front.push(x));
        assert(b.to_multiset().count(x) > 0);
        let j = choose|j: int| 0 <= j < b.len() && b[j] == x;
        let left = b.take(j);
        let right = b.skip(j + 1);
        assert(b =~= left + seq![x] + right);
        assert(b.remove(j) =~= left + right);
        assert(b.remove(j).to_multiset() =~= front.to_multiset());
        lemma_records_of_same_entries(front, left + right);
        lemma_records_concat(front, seq![x]);
        assert(a =~= front + seq![x]);
        lemma_records_concat(left, right);
        lemma_records_concat(left, seq![x]);
        lemma_records_concat(left + seq![x], right);
        let one = records(seq![x]);
        vstd::seq_lib::lemma_multiset_commutative(records(front), one);
        vstd::seq_lib::lemma_multiset_commutative(records(left), records(right));
        vstd::seq_lib::lemma_multiset_commutative(records(left), one);
        vstd::seq_lib::lemma_multiset_commutative(records(left) + one, records(right));
        assert(records(a).to_multiset() =~= records(b).to_multiset());
    }
}

} // verus!
