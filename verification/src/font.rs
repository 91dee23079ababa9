//! The persistent font index: a name-to-file mapping built by introspecting
//! font files.
//!
//! The index is an ordered list of records, one per indexed file. A display
//! name resolves to the record that was indexed last among those listing it
//! (last write wins). An exact-name miss falls back to a family-only match,
//! but only onto a variable font: a variable font is assumed to cover every
//! weight under its family name, while an unresolved style suffix on a
//! static family stays a miss.

use vstd::prelude::*;

use crate::introspect::get_font_names;
use crate::introspect::spec_font_names;
use crate::introspect::spec_font_variable;
use crate::utils::parse_weight;
use crate::utils::spec_parse_weight;
use crate::utils::str_eq;
use vstd::pervasive::VecAdditionalExecFns;
use vstd::string::StringExecFns;

verus! {

/// One indexed font file: its path, the display names it provides, and
/// whether it is a variable font.
pub struct FontFile {
    pub path: String,
    pub names: Vec<String>,
    pub is_variable: bool,
}

pub ghost struct FontFileView {
    pub path: Seq<char>,
    pub names: Seq<Seq<char>>,
    pub is_variable: bool,
}

impl View for FontFile {
    type V = FontFileView;

    open spec fn view(&self) -> FontFileView {
        FontFileView {
            path: self.path@,
            names: self.names.deep_view(),
            is_variable: self.is_variable,
        }
    }
}

impl DeepView for FontFile {
    type V = FontFileView;

    open spec fn deep_view(&self) -> FontFileView {
        self.view()
    }
}

/// An error of an index operation.
#[derive(Clone, Copy, Debug, PartialEq, Eq, Structural)]
pub enum FontIndexError {
    /// A stored path is empty and cannot be made absolute.
    EmptyPath,
    /// The cache bytes do not decode to an index.
    Decode,
}

/// The record lists `name` among its display names.
pub open spec fn file_has_name(f: FontFileView, name: Seq<char>) -> bool {
    f.names.contains(name)
}

/// Position of the record `name` resolves to: the last record listing it,
/// or -1 when no record does.
pub open spec fn record_for(files: Seq<FontFileView>, name: Seq<char>) -> int
    decreases files.len(),
{
    if files.len() == 0 {
        -1
    } else if file_has_name(files.last(), name) {
        files.len() - 1
    } else {
        record_for(files.drop_last(), name)
    }
}

/// What `file_by_font_name` returns: the exact match's path; on a miss, the
/// family match's path when that record is a variable font; otherwise
/// nothing.
pub open spec fn spec_lookup(files: Seq<FontFileView>, name: Seq<char>) -> Option<Seq<char>> {
    if record_for(files, name) >= 0 {
        Some(files[record_for(files, name)].path)
    } else {
        let family = spec_parse_weight(name).0;
        let k = record_for(files, family);
        if k >= 0 && files[k].is_variable {
            Some(files[k].path)
        } else {
            None
        }
    }
}

/// `record_for` points at the last record listing the name.
pub proof fn lemma_record_for(files: Seq<FontFileView>, name: Seq<char>)
    ensures
        record_for(files, name) >= 0 ==> {
            &&& record_for(files, name) < files.len()
            &&& file_has_name(files[record_for(files, name)], name)
            &&& forall|k: int|
                record_for(files, name) < k < files.len() ==> !file_has_name(
                    #[trigger] files[k],
                    name,
                )
        },
        record_for(files, name) == -1 ==> forall|k: int|
            0 <= k < files.len() ==> !file_has_name(#[trigger] files[k], name),
        record_for(files, name) == -1 || record_for(files, name) >= 0,
    decreases files.len(),
{
    if files.len() > 0 && !file_has_name(files.last(), name) {
        lemma_record_for(files.drop_last(), name);
        assert(forall|k: int| 0 <= k < files.len() - 1 ==> files[k] == files.drop_last()[k]);
    }
}

/// The persistent font index.
pub struct FontProviders {
    files: Vec<FontFile>,
}

impl View for FontProviders {
    type V = Seq<FontFileView>;

    closed spec fn view(&self) -> Seq<FontFileView> {
        self.files.deep_view()
    }
}

impl FontProviders {
    pub fn new() -> (r: FontProviders)
        ensures
            r@ == Seq::<FontFileView>::empty(),
    {
        let r = FontProviders { files: Vec::new() };
        proof {
            assert(r@ =~= Seq::<FontFileView>::empty());
        }
        r
    }

    /// Introspect one font file held in `data` and append its record: every
    /// display name of the new record now resolves to it.
    pub fn index(&mut self, path: String, data: &[u8])
        ensures
            final(self)@ == old(self)@.push(
                FontFileView {
                    path: path@,
                    names: spec_font_names(data@),
                    is_variable: spec_font_variable(data@),
                },
            ),
    {
        let (names, is_variable) = get_font_names(data);
        let ghost old_dv = self@;
        let ghost pv = path@;
        self.files.push(FontFile { path, names, is_variable });
        proof {
            assert(self@ =~= old_dv.push(
                FontFileView {
                    path: pv,
                    names: spec_font_names(data@),
                    is_variable: spec_font_variable(data@),
                },
            ));
        }
    }

    /// Resolve a display name to the path of the font file providing it.
    pub fn file_by_font_name(&self, name: &str) -> (r: Option<String>)
        ensures
            match r {
                Some(p) => spec_lookup(self@, name@) == Some(p@),
                None => spec_lookup(self@, name@) is None,
            },
    {
        if let Some(idx) = self.record_index(name) {
            return Some(self.files[idx].path.clone());
        }
        let (family, _style) = parse_weight(name);
        if let Some(idx) = self.record_index(family) {
            let f = &self.files[idx];
            if f.is_variable {
                return Some(f.path.clone());
            }
        }
        None
    }

    /// Position of the last record listing `name`, scanning from the end.
    fn record_index(&self, name: &str) -> (r: Option<usize>)
        ensures
            match r {
                Some(i) => i == record_for(self@, name@) && i < self@.len(),
                None => record_for(self@, name@) == -1,
            },
    {
        let mut i = self.files.len();
        proof {
            assert(self@.subrange(0, i as int) =~= self@);
        }
        while i > 0
            invariant
                i <= self.files.len(),
                record_for(self@, name@) == record_for(self@.subrange(0, i as int), name@),
            decreases i,
        {
            proof {
                assert(self@.subrange(0, i as int).drop_last() =~= self@.subrange(0, i - 1));
                assert(self@.subrange(0, i as int).last() == self@[i - 1]);
            }
            if has_name(&self.files[i - 1], name) {
                proof {
                    assert(record_for(self@.subrange(0, i as int), name@) == i - 1);
                }
                return Some(i - 1);
            }
            i = i - 1;
        }
        proof {
            assert(self@.subrange(0, 0) =~= Seq::<FontFileView>::empty());
        }
        None
    }
}

/// `p` made absolute against the base directory `base`: an already absolute
/// path is kept, a relative one is prefixed with `base` and a separator.
/// No lexical normalization is performed.
pub open spec fn spec_absolute(p: Seq<char>, base: Seq<char>) -> Seq<char> {
    if p.len() > 0 && p[0] == '/' {
        p
    } else {
        base + "/"@ + p
    }
}

/// The record with its path made absolute.
pub open spec fn spec_absolute_file(f: FontFileView, base: Seq<char>) -> FontFileView {
    FontFileView { path: spec_absolute(f.path, base), names: f.names, is_variable: f.is_variable }
}

/// The bytes the cache encoder produces for an index with these records.
pub uninterp spec fn cache_enc_of(files: Seq<FontFileView>) -> Seq<u8>;

/// The records the cache decoder reads from these bytes, or `None` when
/// they do not decode.
pub uninterp spec fn cache_dec_of(bytes: Seq<u8>) -> Option<Seq<FontFileView>>;

/// Relies on bincode::encode_to_vec with the standard configuration: the
/// encoding is a function of the encoded value alone, it cannot fail for
/// these element types (the vector writer never errors), and
/// bincode::decode_from_slice recovers the encoded value exactly
/// (bincode's documented round trip).
#[verifier::external_body]
fn cache_encode(files: &Vec<FontFile>) -> (r: Vec<u8>)
    ensures
        r@ == cache_enc_of(files.deep_view()),
        cache_dec_of(r@) == Some(files.deep_view()),
{
    let plain: Vec<(String, Vec<String>, bool)> = files
        .iter()
        .map(|f| (f.path.clone(), f.names.clone(), f.is_variable))
        .collect();
    bincode::encode_to_vec(&plain, bincode::config::standard()).unwrap()
}

/// Relies on bincode::decode_from_slice with the standard configuration:
/// what the bytes decode to, and whether they decode at all, is a function
/// of the bytes alone.
#[verifier::external_body]
fn cache_decode(bytes: &[u8]) -> (r: Option<Vec<FontFile>>)
    ensures
        match r {
            Some(files) => cache_dec_of(bytes@) == Some(files.deep_view()),
            None => cache_dec_of(bytes@) is None,
        },
{
    let decoded: (Vec<(String, Vec<String>, bool)>, usize) =
        match bincode::decode_from_slice(bytes, bincode::config::standard()) {
            Ok(v) => v,
            Err(_) => return None,
        };
    Some(
        decoded
            .0
            .into_iter()
            .map(|(path, names, is_variable)| FontFile { path, names, is_variable })
            .collect(),
    )
}

impl FontProviders {
    /// Rewrite every stored path to an absolute one against the base
    /// directory `base`; fails, leaving the index unchanged, exactly when
    /// some stored path is empty.
    pub fn make_absolute(&mut self, base: &str) -> (r: Result<(), FontIndexError>)
        ensures
            match r {
                Ok(()) => {
                    &&& final(self)@.len() == old(self)@.len()
                    &&& forall|k: int|
                        0 <= k < old(self)@.len() ==> final(self)@[k] == spec_absolute_file(
                            #[trigger] old(self)@[k],
                            base@,
                        )
                    &&& forall|k: int|
                        0 <= k < old(self)@.len() ==> (#[trigger] old(self)@[k]).path.len() > 0
                },
                Err(e) => {
                    &&& e == FontIndexError::EmptyPath
                    &&& final(self)@ == old(self)@
                    &&& exists|k: int|
                        0 <= k < old(self)@.len() && (#[trigger] old(self)@[k]).path.len() == 0
                },
            },
    {
        let mut i: usize = 0;
        while i < self.files.len()
            invariant
                i <= self.files.len(),
                self@ == old(self)@,
                forall|k: int| 0 <= k < i ==> (#[trigger] self@[k]).path.len() > 0,
            decreases self.files.len() - i,
        {
            proof {
                assert(self@[i as int].path == self.files@[i as int].path@);
            }
            if self.files[i].path.as_str().is_empty() {
                return Err(FontIndexError::EmptyPath);
            }
            i = i + 1;
        }
        let mut i: usize = 0;
        while i < self.files.len()
            invariant
                i <= self.files.len(),
                self@.len() == old(self)@.len(),
                forall|k: int| i <= k < self@.len() ==> #[trigger] self@[k] == old(self)@[k],
                forall|k: int|
                    0 <= k < i ==> #[trigger] self@[k] == spec_absolute_file(
                        old(self)@[k],
                        base@,
                    ),
                forall|k: int|
                    0 <= k < old(self)@.len() ==> (#[trigger] old(self)@[k]).path.len() > 0,
            decreases self.files.len() - i,
        {
            proof {
                assert(self@[i as int] == self.files@[i as int]@);
            }
            let np: String;
            if self.files[i].path.as_str().get_char(0) == '/' {
                np = self.files[i].path.clone();
            } else {
                np = base.to_owned().concat("/").concat(self.files[i].path.as_str());
            }
            let names = self.files[i].names.clone();
            let ghost old_names = self.files@[i as int].names;
            proof {
                assert forall|q: int| 0 <= q < old_names@.len() implies names@[q]
                    == old_names@[q] by {
                    assert(cloned::<String>(old_names@[q], names@[q]));
                }
                assert(names.deep_view() =~= old_names.deep_view());
            }
            let iv = self.files[i].is_variable;
            let ghost before = self@;
            self.files.set(i, FontFile { path: np, names, is_variable: iv });
            proof {
                assert(self@ =~= before.update(i as int, self.files@[i as int]@));
                assert(self@[i as int] == spec_absolute_file(old(self)@[i as int], base@));
            }
            i = i + 1;
        }
        Ok(())
    }

    /// Encode the index for the cache file.
    pub fn serialize(&self) -> (r: Vec<u8>)
        ensures
            r@ == cache_enc_of(self@),
            cache_dec_of(r@) == Some(self@),
    {
        cache_encode(&self.files)
    }

    /// Decode an index from cache-file bytes; foreign or truncated bytes
    /// are a hard error, never an empty index.
    pub fn deserialize(bytes: &[u8]) -> (r: Result<FontProviders, FontIndexError>)
        ensures
            match r {
                Ok(fp) => cache_dec_of(bytes@) == Some(fp@),
                Err(e) => e == FontIndexError::Decode && cache_dec_of(bytes@) is None,
            },
    {
        match cache_decode(bytes) {
            Some(files) => Ok(FontProviders { files }),
            None => Err(FontIndexError::Decode),
        }
    }
}

/// Round trip: an index deserialized from what `serialize` produced
/// resolves every display name to the same path as the index that was
/// serialized.
pub proof fn lemma_serialize_round_trip(x: FontProviders, b: Seq<u8>, y: FontProviders)
    requires
        b == cache_enc_of(x@),
        cache_dec_of(b) == Some(x@),
        cache_dec_of(b) == Some(y@),
    ensures
        forall|name: Seq<char>| spec_lookup(y@, name) == spec_lookup(x@, name),
{
    assert(x@ == y@);
}

/// The family-only fallback never widens onto a static family: a name
/// without an exact record whose family record is not variable is a miss.
pub proof fn lemma_no_fallback_on_static_family(files: Seq<FontFileView>, name: Seq<char>)
    requires
        record_for(files, name) == -1,
        record_for(files, spec_parse_weight(name).0) >= 0,
        !files[record_for(files, spec_parse_weight(name).0)].is_variable,
    ensures
        spec_lookup(files, name) is None,
{
}

/// A name without an exact record whose family record is a variable font
/// resolves to that record's path.
pub proof fn lemma_fallback_on_variable_family(files: Seq<FontFileView>, name: Seq<char>)
    requires
        record_for(files, name) == -1,
        record_for(files, spec_parse_weight(name).0) >= 0,
        files[record_for(files, spec_parse_weight(name).0)].is_variable,
    ensures
        spec_lookup(files, name) == Some(
            files[record_for(files, spec_parse_weight(name).0)].path,
        ),
{
}

/// Last write wins: when the record at `j` lists `name` and no later record
/// does, lookup resolves `name` to that record's path.
pub proof fn lemma_last_write_wins(files: Seq<FontFileView>, j: int, name: Seq<char>)
    requires
        0 <= j < files.len(),
        file_has_name(files[j], name),
        forall|k: int| j < k < files.len() ==> !file_has_name(#[trigger] files[k], name),
    ensures
        record_for(files, name) == j,
        spec_lookup(files, name) == Some(files[j].path),
{
    lemma_record_for(files, name);
    let r = record_for(files, name);
    if r == -1 {
        assert(!file_has_name(files[j], name));
    } else if r < j {
        assert(!file_has_name(files[j], name));
    } else if r > j {
        assert(!file_has_name(files[r], name));
    }
}

/// The record lists `name` among its display names.
fn has_name(f: &FontFile, name: &str) -> (r: bool)
    ensures
        r == file_has_name(f@, name@),
{
    let mut j: usize = 0;
    while j < f.names.len()
        invariant
            j <= f.names.len(),
            forall|q: int| 0 <= q < j ==> f@.names[q] != name@,
        decreases f.names.len() - j,
    {
        proof {
            assert(f@.names[j as int] == f.names@[j as int]@);
        }
        if str_eq(f.names[j].as_str(), name) {
            proof {
                assert(f@.names.contains(name@));
            }
            return true;
        }
        j = j + 1;
    }
    proof {
        assert(!f@.names.contains(name@)) by {
            if f@.names.contains(name@) {
                let q = choose|q: int| 0 <= q < f@.names.len() && f@.names[q] == name@;
            }
        }
    }
    false
}

} // verus!
