//! Font-file introspection.
//!
//! One font file (a single face or a collection of faces) is parsed into the
//! display names it provides and a variable-font flag. Face parsing and
//! name-table access are the work of the `ttf_parser` crate; the selection
//! of full-name entries, the decode preference (UTF-16 first, then raw
//! UTF-8), the union across faces and the duplicate removal are verified
//! here.

use vstd::prelude::*;

use vstd::utf8::decode_utf8;
use vstd::utf8::valid_utf8;

verus! {

/// The name-table identifier of a full font name.
pub const FULL_NAME_ID: u16 = 4;

/// One name-table entry of a parsed face: its identifier, its text when the
/// entry is Unicode-encoded, and its raw bytes.
pub struct NameEntry {
    pub name_id: u16,
    pub unicode_text: Option<String>,
    pub raw: Vec<u8>,
}

/// What one face of a font file exposes: its name-table entries and whether
/// the face carries variation axes.
pub struct FaceInfo {
    pub entries: Vec<NameEntry>,
    pub is_variable: bool,
}

pub ghost struct NameEntryView {
    pub name_id: u16,
    pub unicode_text: Option<Seq<char>>,
    pub raw: Seq<u8>,
}

pub ghost struct FaceInfoView {
    pub entries: Seq<NameEntryView>,
    pub is_variable: bool,
}

impl View for NameEntry {
    type V = NameEntryView;

    open spec fn view(&self) -> NameEntryView {
        NameEntryView {
            name_id: self.name_id,
            unicode_text: match self.unicode_text {
                Some(s) => Some(s@),
                None => None,
            },
            raw: self.raw@,
        }
    }
}

impl DeepView for NameEntry {
    type V = NameEntryView;

    open spec fn deep_view(&self) -> NameEntryView {
        self.view()
    }
}

impl View for FaceInfo {
    type V = FaceInfoView;

    open spec fn view(&self) -> FaceInfoView {
        FaceInfoView { entries: self.entries.deep_view(), is_variable: self.is_variable }
    }
}

/// The face count that `ttf_parser::fonts_in_collection` reads from a
/// collection header, `None` for a plain single-face file.
pub uninterp spec fn spec_collection_size(data: Seq<u8>) -> Option<u32>;

/// What parsing face `index` of the file yields: its name-table entries in
/// table order (each with its UTF-16 decoding, when the entry is Unicode)
/// and its variation flag, or `None` when the face does not parse.
pub uninterp spec fn spec_face_info(data: Seq<u8>, index: int) -> Option<FaceInfoView>;

/// Relies on ttf_parser::fonts_in_collection: reading the face count of a
/// collection header is a function of the bytes alone; a plain font file
/// yields `None`.
#[verifier::external_body]
fn collection_size(data: &[u8]) -> (r: Option<u32>)
    ensures
        r == spec_collection_size(data@),
{
    ttf_parser::fonts_in_collection(data)
}

/// Relies on ttf_parser::Face::parse and its accessors Face::names,
/// Name::to_string (the UTF-16 decoding of a Unicode name entry) and
/// Face::is_variable: all are functions of the file bytes and face index
/// alone.
#[verifier::external_body]
fn parse_face(data: &[u8], index: u32) -> (r: Option<FaceInfo>)
    ensures
        match r {
            Some(f) => spec_face_info(data@, index as int) == Some(f@),
            None => spec_face_info(data@, index as int) is None,
        },
{
    let face = match ttf_parser::Face::parse(data, index) {
        Ok(face) => face,
        Err(_) => return None,
    };
    let is_variable = face.is_variable();
    let entries = face
        .names()
        .into_iter()
        .map(|n| NameEntry {
            name_id: n.name_id,
            unicode_text: n.to_string(),
            raw: n.name.to_vec(),
        })
        .collect();
    Some(FaceInfo { entries, is_variable })
}

/// Relies on String::from_utf8: it succeeds exactly on valid UTF-8 and
/// yields its decoding.
#[verifier::external_body]
fn utf8_to_string(bytes: Vec<u8>) -> (r: Option<String>)
    ensures
        match r {
            Some(s) => valid_utf8(bytes@) && s@ == decode_utf8(bytes@),
            None => !valid_utf8(bytes@),
        },
{
    String::from_utf8(bytes).ok()
}

/// The display name one name-table entry decodes to: its UTF-16 text when
/// the entry is Unicode-encoded, else its raw bytes read as UTF-8; an entry
/// that decodes under neither is dropped.
pub open spec fn spec_entry_name(e: NameEntryView) -> Option<Seq<char>> {
    match e.unicode_text {
        Some(s) => Some(s),
        None => if valid_utf8(e.raw) {
            Some(decode_utf8(e.raw))
        } else {
            None
        },
    }
}

/// The decoded full names among the first `m` entries of a face's name
/// table, in table order.
pub open spec fn spec_face_names_upto(entries: Seq<NameEntryView>, m: int) -> Seq<Seq<char>>
    decreases m,
{
    if m <= 0 {
        Seq::empty()
    } else {
        let rest = spec_face_names_upto(entries, m - 1);
        if entries[m - 1].name_id == FULL_NAME_ID {
            match spec_entry_name(entries[m - 1]) {
                Some(n) => rest.push(n),
                None => rest,
            }
        } else {
            rest
        }
    }
}

/// The decoded full names of one face, in table order.
pub open spec fn spec_face_names(entries: Seq<NameEntryView>) -> Seq<Seq<char>> {
    spec_face_names_upto(entries, entries.len() as int)
}

/// The face count used for the scan: the collection header's count, or 1
/// for a plain font file.
pub open spec fn spec_face_count(data: Seq<u8>) -> u32 {
    match spec_collection_size(data) {
        Some(n) => n,
        None => 1u32,
    }
}

/// The full names of the first `m` faces, concatenated in face order;
/// a face that does not parse contributes nothing.
pub open spec fn spec_all_names_upto(data: Seq<u8>, m: int) -> Seq<Seq<char>>
    decreases m,
{
    if m <= 0 {
        Seq::empty()
    } else {
        spec_all_names_upto(data, m - 1) + match spec_face_info(data, m - 1) {
            Some(f) => spec_face_names(f.entries),
            None => Seq::empty(),
        }
    }
}

/// Whether the last face among the first `m` that parses carries variation
/// axes; `false` when none parses.
pub open spec fn spec_variable_upto(data: Seq<u8>, m: int) -> bool
    decreases m,
{
    if m <= 0 {
        false
    } else {
        match spec_face_info(data, m - 1) {
            Some(f) => f.is_variable,
            None => spec_variable_upto(data, m - 1),
        }
    }
}

/// `s` with later duplicates removed; the first occurrence keeps its place.
pub open spec fn dedup(s: Seq<Seq<char>>) -> Seq<Seq<char>>
    decreases s.len(),
{
    if s.len() == 0 {
        Seq::empty()
    } else {
        let rest = dedup(s.drop_last());
        if s.drop_last().contains(s.last()) {
            rest
        } else {
            rest.push(s.last())
        }
    }
}

pub proof fn lemma_dedup_contains(s: Seq<Seq<char>>)
    ensures
        forall|x: Seq<char>| dedup(s).contains(x) <==> s.contains(x),
    decreases s.len(),
{
    if s.len() > 0 {
        let rest = dedup(s.drop_last());
        lemma_dedup_contains(s.drop_last());
        assert forall|x: Seq<char>| s.contains(x) implies dedup(s).contains(x) by {
            let i = choose|i: int| 0 <= i < s.len() && s[i] == x;
            if i < s.len() - 1 {
                assert(s.drop_last()[i] == x);
                assert(s.drop_last().contains(x));
                assert(rest.contains(x));
                let j = choose|j: int| 0 <= j < rest.len() && rest[j] == x;
                assert(dedup(s)[j] == x);
            } else {
                if s.drop_last().contains(s.last()) {
                    assert(rest.contains(x));
                    let j = choose|j: int| 0 <= j < rest.len() && rest[j] == x;
                    assert(dedup(s)[j] == x);
                } else {
                    assert(dedup(s)[dedup(s).len() - 1] == x);
                }
            }
        }
        assert forall|x: Seq<char>| dedup(s).contains(x) implies s.contains(x) by {
            let i = choose|i: int| 0 <= i < dedup(s).len() && dedup(s)[i] == x;
            if i < rest.len() {
                assert(rest[i] == x);
                assert(rest.contains(x));
                assert(s.drop_last().contains(x));
                let j = choose|j: int| 0 <= j < s.drop_last().len() && s.drop_last()[j] == x;
                assert(s[j] == x);
            } else {
                assert(x == s.last());
                assert(s[s.len() - 1] == x);
            }
        }
    }
}

pub proof fn lemma_dedup_no_duplicates(s: Seq<Seq<char>>)
    ensures
        dedup(s).no_duplicates(),
    decreases s.len(),
{
    if s.len() > 0 {
        lemma_dedup_no_duplicates(s.drop_last());
        lemma_dedup_contains(s.drop_last());
        if !s.drop_last().contains(s.last()) {
            assert(!dedup(s.drop_last()).contains(s.last()));
            let rest = dedup(s.drop_last());
            assert forall|a: int, b: int|
                0 <= a < dedup(s).len() && 0 <= b < dedup(s).len() && a != b
                implies dedup(s)[a] != dedup(s)[b] by {
                if a < rest.len() && b < rest.len() {
                } else if a == rest.len() {
                    assert(rest[b] != s.last()) by {
                        if rest[b] == s.last() {
                            assert(rest.contains(s.last()));
                        }
                    }
                } else if b == rest.len() {
                    assert(rest[a] != s.last()) by {
                        if rest[a] == s.last() {
                            assert(rest.contains(s.last()));
                        }
                    }
                }
            }
        }
    }
}

/// All display names the font file provides (duplicates removed, first
/// occurrence kept), across every face of a collection.
pub open spec fn spec_font_names(data: Seq<u8>) -> Seq<Seq<char>> {
    dedup(spec_all_names_upto(data, spec_face_count(data) as int))
}

/// Whether the file's last parsed face is a variable font.
pub open spec fn spec_font_variable(data: Seq<u8>) -> bool {
    spec_variable_upto(data, spec_face_count(data) as int)
}

/// Introspect one font file held in `data`: every display name it provides
/// under the full-name identifier, and its variable-font flag. A file or
/// face that does not parse contributes an empty name list.
pub fn get_font_names(data: &[u8]) -> (r: (Vec<String>, bool))
    ensures
        r.0.deep_view() == spec_font_names(data@),
        r.1 == spec_font_variable(data@),
        r.0.deep_view().no_duplicates(),
{
    let ghost d = data@;
    let num_faces = match collection_size(data) {
        Some(n) => n,
        None => 1,
    };
    let mut names: Vec<String> = Vec::new();
    let mut is_variable = false;
    let mut i: u32 = 0;
    while i < num_faces
        invariant
            d == data@,
            num_faces == spec_face_count(d),
            i <= num_faces,
            names.deep_view() == dedup(spec_all_names_upto(d, i as int)),
            is_variable == spec_variable_upto(d, i as int),
        decreases num_faces - i,
    {
        match parse_face(data, i) {
            Some(face) => {
                is_variable = face.is_variable;
                let ghost entries_dv = face.entries.deep_view();
                let ghost acc0 = spec_all_names_upto(d, i as int);
                let e_len = face.entries.len();
                let mut k: usize = 0;
                while k < e_len
                    invariant
                        d == data@,
                        entries_dv == face.entries.deep_view(),
                        e_len == face.entries.len(),
                        k <= e_len,
                        names.deep_view() == dedup(
                            acc0 + spec_face_names_upto(entries_dv, k as int),
                        ),
                    decreases e_len - k,
                {
                    let e = &face.entries[k];
                    proof {
                        assert(entries_dv[k as int] == face.entries@[k as int]@);
                    }
                    if e.name_id == FULL_NAME_ID {
                        let decoded: Option<String> = match &e.unicode_text {
                            Some(s) => Some(s.clone()),
                            None => utf8_to_string(e.raw.clone()),
                        };
                        match decoded {
                            Some(n) => {
                                proof {
                                    assert(spec_entry_name(entries_dv[k as int]) == Some(n@));
                                }
                                push_name(&mut names, n, Ghost(acc0
                                    + spec_face_names_upto(entries_dv, k as int)));
                                proof {
                                    assert(acc0 + spec_face_names_upto(entries_dv, k + 1)
                                        =~= (acc0 + spec_face_names_upto(entries_dv, k as int))
                                        .push(n@));
                                }
                            },
                            None => {
                                proof {
                                    assert(spec_entry_name(entries_dv[k as int]) is None);
                                    assert(acc0 + spec_face_names_upto(entries_dv, k + 1)
                                        =~= acc0 + spec_face_names_upto(entries_dv, k as int));
                                }
                            },
                        }
                    } else {
                        proof {
                            assert(acc0 + spec_face_names_upto(entries_dv, k + 1) =~= acc0
                                + spec_face_names_upto(entries_dv, k as int));
                        }
                    }
                    k = k + 1;
                }
                proof {
                    assert(spec_all_names_upto(d, i + 1) =~= acc0 + spec_face_names(
                        face@.entries,
                    ));
                }
            },
            None => {
                proof {
                    assert(spec_all_names_upto(d, i + 1) =~= spec_all_names_upto(d, i as int));
                }
            },
        }
        i = i + 1;
    }
    proof {
        lemma_dedup_no_duplicates(spec_all_names_upto(d, num_faces as int));
    }
    (names, is_variable)
}

/// Append `n` unless an equal name is already present, so that the vector
/// stays the deduplication of `all.push(n@)`.
fn push_name(names: &mut Vec<String>, n: String, Ghost(all): Ghost<Seq<Seq<char>>>)
    requires
        old(names).deep_view() == dedup(all),
    ensures
        final(names).deep_view() == dedup(all.push(n@)),
{
    proof {
        assert(all.push(n@).drop_last() =~= all);
        lemma_dedup_contains(all);
    }
    let mut k: usize = 0;
    while k < names.len()
        invariant
            k <= names.len(),
            names.deep_view() == dedup(all),
            forall|q: int| 0 <= q < k ==> names.deep_view()[q] != n@,
        decreases names.len() - k,
    {
        proof {
            assert(names.deep_view()[k as int] == names@[k as int]@);
        }
        if names[k] == n {
            proof {
                assert(names.deep_view().contains(n@));
                lemma_dedup_contains(all);
                assert(all.push(n@).drop_last() =~= all);
                assert(all.contains(n@));
            }
            return ;
        }
        k = k + 1;
    }
    proof {
        assert(!names.deep_view().contains(n@));
        lemma_dedup_contains(all);
        assert(!all.contains(n@));
        assert(all.push(n@).drop_last() =~= all);
    }
    let ghost before = names.deep_view();
    names.push(n);
    proof {
        assert(names.deep_view() =~= before.push(all.push(n@).last()));
    }
}

} // verus!
