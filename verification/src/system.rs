//! Platform font service decisions and the scoped install lifecycle.
//!
//! The OS-specific work — querying the platform font stack and registering
//! or unregistering files — happens outside this crate. What is decided
//! here, and verified: whether a platform best-match answer satisfies a
//! request (an exact family match, never an alias substitution), which
//! fonts of a usage set need loading, and the install scope's bookkeeping
//! that guarantees every successfully registered file is handed back for
//! unregistration exactly once when the scope closes.

use vstd::prelude::*;

use crate::font::spec_lookup;
use crate::font::FontFileView;
use crate::font::FontProviders;
use crate::utils::eq_ignore_ascii;
use crate::utils::parse_weight;
use crate::utils::spec_parse_weight;
use crate::utils::str_eq_ignore_ascii_case;

verus! {

/// The request's family appears, case-insensitively, among the families of
/// the platform's best match.
pub open spec fn spec_family_match(requested: Seq<char>, families: Seq<Seq<char>>) -> bool {
    exists|k: int|
        0 <= k < families.len() && eq_ignore_ascii(
            #[trigger] families[k],
            spec_parse_weight(requested).0,
        )
}

/// Resolves whether a display name is satisfied by the fonts the OS has
/// installed.
pub struct Finder {
}

impl Finder {
    pub fn new() -> (r: Finder) {
        Finder {  }
    }

    /// Accept the platform's best match for `name` only when its family
    /// list carries the requested family itself: a match produced by alias
    /// or default substitution reports not-found. `match_families` and
    /// `match_file` are the family names and file path of the best match
    /// the platform returned.
    pub fn get_font_file(
        &self,
        name: &str,
        match_families: &Vec<String>,
        match_file: &String,
    ) -> (r: Option<String>)
        ensures
            match r {
                Some(p) => spec_family_match(name@, match_families.deep_view()) && p@
                    == match_file@,
                None => !spec_family_match(name@, match_families.deep_view()),
            },
    {
        let (family, _style) = parse_weight(name);
        let mut k: usize = 0;
        while k < match_families.len()
            invariant
                k <= match_families.len(),
                family@ == spec_parse_weight(name@).0,
                forall|q: int|
                    0 <= q < k ==> !eq_ignore_ascii(
                        #[trigger] match_families.deep_view()[q],
                        spec_parse_weight(name@).0,
                    ),
            decreases match_families.len() - k,
        {
            proof {
                assert(match_families.deep_view()[k as int] == match_families@[k as int]@);
            }
            if str_eq_ignore_ascii_case(match_families[k].as_str(), family) {
                return Some(match_file.clone());
            }
            k = k + 1;
        }
        None
    }
}

/// The install scope's bookkeeping: the files registered so far, in
/// registration order.
pub struct Loader {
    loaded: Vec<String>,
}

impl View for Loader {
    type V = Seq<Seq<char>>;

    closed spec fn view(&self) -> Seq<Seq<char>> {
        self.loaded.deep_view()
    }
}

impl Loader {
    pub fn new() -> (r: Loader)
        ensures
            r@ == Seq::<Seq<char>>::empty(),
    {
        let r = Loader { loaded: Vec::new() };
        proof {
            assert(r@ =~= Seq::<Seq<char>>::empty());
        }
        r
    }

    /// Record the outcome of one registration attempt: a file enters the
    /// scope exactly when the platform registered it.
    pub fn register(&mut self, file: String, registered: bool)
        ensures
            registered ==> final(self)@ == old(self)@.push(file@),
            !registered ==> final(self)@ == old(self)@,
    {
        if registered {
            let ghost before = self@;
            self.loaded.push(file);
            proof {
                assert(self@ =~= before.push(self.loaded@.last()@));
            }
        }
    }

    /// Run a batch of registration attempts whose outcomes are
    /// `registered`: attempts run in order and stop at the first failure,
    /// which is reported with its position; exactly the files attempted
    /// successfully before it enter the scope.
    pub fn load(&mut self, files: &Vec<String>, registered: &Vec<bool>) -> (r: Result<
        (),
        usize,
    >)
        requires
            registered@.len() == files@.len(),
        ensures
            match r {
                Ok(()) => (forall|q: int| 0 <= q < registered@.len() ==> registered@[q])
                    && final(self)@ == old(self)@ + files.deep_view(),
                Err(k) => {
                    &&& k < files@.len()
                    &&& !registered@[k as int]
                    &&& forall|q: int| 0 <= q < k ==> registered@[q]
                    &&& final(self)@ == old(self)@ + files.deep_view().take(k as int)
                },
            },
    {
        let mut i: usize = 0;
        proof {
            assert(old(self)@ + files.deep_view().take(0) =~= old(self)@);
        }
        while i < files.len()
            invariant
                i <= files.len(),
                registered@.len() == files@.len(),
                forall|q: int| 0 <= q < i ==> registered@[q],
                self@ == old(self)@ + files.deep_view().take(i as int),
            decreases files.len() - i,
        {
            proof {
                assert(files.deep_view()[i as int] == files@[i as int]@);
            }
            if !registered[i] {
                return Err(i);
            }
            self.register(files[i].clone(), true);
            proof {
                assert(files.deep_view().take(i + 1) =~= files.deep_view().take(i as int).push(
                    files.deep_view()[i as int],
                ));
                assert(self@ =~= old(self)@ + files.deep_view().take(i + 1));
            }
            i = i + 1;
        }
        proof {
            assert(files.deep_view().take(files@.len() as int) =~= files.deep_view());
        }
        Ok(())
    }

    /// Close the scope: hand back every file it holds, in registration
    /// order, and empty it — so each registered file is unregistered
    /// exactly once, and a second close unregisters nothing.
    pub fn unload_all(&mut self) -> (r: Vec<String>)
        ensures
            r.deep_view() == old(self)@,
            final(self)@ == Seq::<Seq<char>>::empty(),
    {
        let mut out: Vec<String> = Vec::new();
        core::mem::swap(&mut self.loaded, &mut out);
        proof {
            assert(self@ =~= Seq::<Seq<char>>::empty());
        }
        out
    }
}

/// Closing a scope that was fresh before a batch unregisters exactly the
/// files the batch registered: all of them on full success, and exactly
/// the ones before the first failure otherwise — each once, in order.
pub proof fn lemma_scope_unregisters_exactly(
    scope_before: Seq<Seq<char>>,
    scope_after: Seq<Seq<char>>,
    files: Seq<Seq<char>>,
    outcome: Result<(), usize>,
)
    requires
        scope_before == Seq::<Seq<char>>::empty(),
        match outcome {
            Ok(()) => scope_after == scope_before + files,
            Err(k) => 0 <= k < files.len() && scope_after == scope_before + files.take(k as int),
        },
    ensures
        match outcome {
            Ok(()) => scope_after == files && scope_after.len() == files.len(),
            Err(k) => {
                &&& scope_after == files.take(k as int)
                &&& scope_after.len() == k
                &&& forall|q: int| 0 <= q < k ==> scope_after[q] == files[q]
            },
        },
{
    match outcome {
        Ok(()) => {
            assert(scope_before + files =~= files);
        },
        Err(k) => {
            assert(scope_before + files.take(k as int) =~= files.take(k as int));
        },
    }
}

/// What `select_fonts_to_load` accumulates over the first `m` names: the
/// names that are not already installed and resolve in the index, and the
/// distinct files they resolve to.
pub open spec fn spec_select(
    names: Seq<Seq<char>>,
    installed: Seq<bool>,
    files: Seq<FontFileView>,
    m: int,
) -> (Seq<Seq<char>>, Seq<Seq<char>>)
    decreases m,
{
    if m <= 0 {
        (Seq::empty(), Seq::empty())
    } else {
        let prev = spec_select(names, installed, files, m - 1);
        if installed[m - 1] {
            prev
        } else {
            match spec_lookup(files, names[m - 1]) {
                Some(p) => (
                    prev.0.push(names[m - 1]),
                    if prev.1.contains(p) {
                        prev.1
                    } else {
                        prev.1.push(p)
                    },
                ),
                None => prev,
            }
        }
    }
}

/// Select what to load: among `names` (with `installed[k]` saying whether
/// the platform already satisfies `names[k]`), keep every name that is not
/// installed and resolves in the index, together with the distinct set of
/// files to register. A name that is neither installed nor indexed is
/// dropped.
pub fn select_fonts_to_load(
    names: &Vec<String>,
    installed: &Vec<bool>,
    cache: &FontProviders,
) -> (r: (Vec<String>, Vec<String>))
    requires
        installed@.len() == names@.len(),
    ensures
        r.0.deep_view() == spec_select(
            names.deep_view(),
            installed@,
            cache@,
            names@.len() as int,
        ).0,
        r.1.deep_view() == spec_select(
            names.deep_view(),
            installed@,
            cache@,
            names@.len() as int,
        ).1,
{
    let mut out_names: Vec<String> = Vec::new();
    let mut out_files: Vec<String> = Vec::new();
    let mut i: usize = 0;
    while i < names.len()
        invariant
            i <= names.len(),
            installed@.len() == names@.len(),
            out_names.deep_view() == spec_select(
                names.deep_view(),
                installed@,
                cache@,
                i as int,
            ).0,
            out_files.deep_view() == spec_select(
                names.deep_view(),
                installed@,
                cache@,
                i as int,
            ).1,
        decreases names.len() - i,
    {
        proof {
            assert(names.deep_view()[i as int] == names@[i as int]@);
        }
        if !installed[i] {
            match cache.file_by_font_name(names[i].as_str()) {
                Some(path) => {
                    let ghost before_names = out_names.deep_view();
                    out_names.push(names[i].clone());
                    proof {
                        assert(out_names.deep_view() =~= before_names.push(
                            names.deep_view()[i as int],
                        ));
                    }
                    push_if_absent(&mut out_files, &path);
                },
                None => {},
            }
        }
        i = i + 1;
    }
    (out_names, out_files)
}

/// Append `s` unless an equal string is already present.
fn push_if_absent(v: &mut Vec<String>, s: &String)
    ensures
        final(v).deep_view() == (if old(v).deep_view().contains(s@) {
            old(v).deep_view()
        } else {
            old(v).deep_view().push(s@)
        }),
{
    let ghost dv = v.deep_view();
    let mut k: usize = 0;
    while k < v.len()
        invariant
            k <= v.len(),
            dv == v.deep_view(),
            forall|q: int| 0 <= q < k ==> dv[q] != s@,
        decreases v.len() - k,
    {
        proof {
            assert(v.deep_view()[k as int] == v@[k as int]@);
        }
        if v[k] == *s {
            proof {
                assert(dv.contains(s@));
            }
            return ;
        }
        k = k + 1;
    }
    proof {
        assert(!dv.contains(s@)) by {
            if dv.contains(s@) {
                let q = choose|q: int| 0 <= q < dv.len() && dv[q] == s@;
            }
        }
    }
    let ghost before = v.deep_view();
    v.push(s.clone());
    proof {
        assert(v.deep_view() =~= before.push(s@));
    }
}

/// The indicator `list` prints for one name — `*` installed, `-` indexed
/// in the cache, space otherwise — and the file that can be exported.
pub fn list_entry(installed: Option<String>, cached: Option<String>) -> (r: (
    char,
    Option<String>,
))
    ensures
        installed is Some ==> r == ('*', installed),
        installed is None && cached is Some ==> r == ('-', cached),
        installed is None && cached is None ==> r == (' ', Option::<String>::None),
{
    match installed {
        Some(p) => ('*', Some(p)),
        None => match cached {
            Some(p) => ('-', Some(p)),
            None => (' ', None),
        },
    }
}

} // verus!
