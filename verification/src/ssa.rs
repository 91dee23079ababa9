//! Subtitle font-usage extraction.
//!
//! One (A)SSA document is handed to the extractor as its already-tokenized
//! Styles and Events sections. The extractor collects the font names the
//! document actually uses: the `fontname` of every style referenced by a
//! dialogue event, plus every inline `\fn` override. Inside one `{...}`
//! override block only the textually last `\fn` instruction counts, since it
//! overrides the earlier ones; a name keeps running until the next `\`
//! instruction or the block's end. A leading `@` (vertical-text marker) is
//! stripped from every collected name.

use vstd::prelude::*;

use crate::utils::lemma_lex_refl_from;
use crate::utils::lemma_lex_total;
use crate::utils::lemma_lex_trans;
use crate::utils::lex_le;
use crate::utils::str_le;
use vstd::multiset::Multiset;
use vstd::string::StringExecFns;

verus! {

/// One entry of a document's Styles section: a style name and the font
/// family it selects.
pub struct StyleEntry {
    pub name: String,
    pub fontname: String,
}

/// One entry of a document's Events section: the style it references,
/// whether it is a dialogue line (as opposed to a comment), and its text.
pub struct EventEntry {
    pub style: String,
    pub is_dialogue: bool,
    pub text: String,
}

pub ghost struct StyleEntryView {
    pub name: Seq<char>,
    pub fontname: Seq<char>,
}

pub ghost struct EventEntryView {
    pub style: Seq<char>,
    pub is_dialogue: bool,
    pub text: Seq<char>,
}

impl View for StyleEntry {
    type V = StyleEntryView;

    open spec fn view(&self) -> StyleEntryView {
        StyleEntryView { name: self.name@, fontname: self.fontname@ }
    }
}

impl DeepView for StyleEntry {
    type V = StyleEntryView;

    open spec fn deep_view(&self) -> StyleEntryView {
        self.view()
    }
}

impl View for EventEntry {
    type V = EventEntryView;

    open spec fn view(&self) -> EventEntryView {
        EventEntryView {
            style: self.style@,
            is_dialogue: self.is_dialogue,
            text: self.text@,
        }
    }
}

impl DeepView for EventEntry {
    type V = EventEntryView;

    open spec fn deep_view(&self) -> EventEntryView {
        self.view()
    }
}

pub open spec fn is_brace(c: char) -> bool {
    c == '{' || c == '}'
}

/// `t[i]..t[j]` is an override block: a brace pair with no nested braces.
pub open spec fn is_block(t: Seq<char>, i: int, j: int) -> bool {
    &&& 0 <= i < j < t.len()
    &&& t[i] == '{'
    &&& t[j] == '}'
    &&& forall|k: int| i < k < j ==> !is_brace(#[trigger] t[k])
}

/// A `\fn` instruction with a nonempty name starts at `p` inside the block
/// `(i, j)`.
pub open spec fn is_override_at(t: Seq<char>, i: int, j: int, p: int) -> bool {
    &&& i < p
    &&& p + 3 < j
    &&& t[p] == '\\'
    &&& t[p + 1] == 'f'
    &&& t[p + 2] == 'n'
    &&& t[p + 3] != '\\'
}

/// Where the override name starting at `q` ends: at the next `\` or at the
/// block's closing brace `j`.
pub open spec fn name_end_from(t: Seq<char>, j: int, q: int) -> int
    decreases j - q,
{
    if q >= j {
        j
    } else if t[q] == '\\' {
        q
    } else {
        name_end_from(t, j, q + 1)
    }
}

/// Start of the last `\fn` instruction at a position below `m` in block
/// `(i, j)`, or -1 when there is none.
pub open spec fn last_override(t: Seq<char>, i: int, j: int, m: int) -> int
    decreases m - i,
{
    if m <= i {
        -1
    } else if is_override_at(t, i, j, m - 1) {
        m - 1
    } else {
        last_override(t, i, j, m - 1)
    }
}

/// The font name the block `(i, j)` contributes: the name of its last `\fn`
/// instruction, if it has one.
pub open spec fn block_font(t: Seq<char>, i: int, j: int) -> Option<Seq<char>> {
    let p = last_override(t, i, j, j);
    if p == -1 {
        None
    } else {
        Some(t.subrange(p + 3, name_end_from(t, j, p + 3)))
    }
}

/// All inline font overrides of a dialogue text: one name per override block
/// that carries a `\fn` instruction.
pub open spec fn text_overrides(t: Seq<char>) -> Set<Seq<char>> {
    Set::new(
        |n: Seq<char>|
            exists|i: int, j: int| is_block(t, i, j) && block_font(t, i, j) == Some(n),
    )
}

/// The overrides contributed by blocks that close before position `end`.
pub open spec fn overrides_upto(t: Seq<char>, end: int) -> Set<Seq<char>> {
    Set::new(
        |n: Seq<char>|
            exists|i: int, j: int|
                j < end && is_block(t, i, j) && block_font(t, i, j) == Some(n),
    )
}

/// The name of the last `\fn` instruction of the block `(i, j)`, or `None`.
fn process_block(text: &str, i: usize, j: usize) -> (r: Option<String>)
    requires
        is_block(text@, i as int, j as int),
    ensures
        match r {
            Some(s) => block_font(text@, i as int, j as int) == Some(s@),
            None => block_font(text@, i as int, j as int) is None,
        },
{
    let ghost t = text@;
    let mut m = j;
    let mut found: Option<usize> = None;
    while m > i + 1 && found.is_none()
        invariant
            is_block(t, i as int, j as int),
            t == text@,
            i + 1 <= m <= j,
            match found {
                Some(p) => p == last_override(t, i as int, j as int, j as int)
                    && is_override_at(t, i as int, j as int, p as int),
                None => last_override(t, i as int, j as int, j as int) == last_override(
                    t,
                    i as int,
                    j as int,
                    m as int,
                ),
            },
        decreases m, (if found is None { 1int } else { 0int }),
    {
        let p = m - 1;
        if j - p > 3 && text.get_char(p) == '\\' && text.get_char(p + 1) == 'f'
            && text.get_char(p + 2) == 'n' && text.get_char(p + 3) != '\\' {
            assert(is_override_at(t, i as int, j as int, p as int));
            found = Some(p);
        } else {
            m = m - 1;
        }
    }
    match found {
        None => {
            proof {
                assert(last_override(t, i as int, j as int, i as int) == -1);
                assert(last_override(t, i as int, j as int, i + 1) == -1);
            }
            None
        },
        Some(p) => {
            let mut q = p + 3;
            while q < j && text.get_char(q) != '\\'
                invariant
                    t == text@,
                    is_block(t, i as int, j as int),
                    p + 3 <= q <= j,
                    j < t.len(),
                    name_end_from(t, j as int, (p + 3) as int) == name_end_from(
                        t,
                        j as int,
                        q as int,
                    ),
                decreases j - q,
            {
                q = q + 1;
            }
            assert(name_end_from(t, j as int, q as int) == q);
            let s = text.substring_char(p + 3, q).to_owned();
            Some(s)
        },
    }
}

/// Every inline font-override name of `text`, one entry per contributing
/// block, in block order.
pub fn text_override_names(text: &str) -> (r: Vec<String>)
    ensures
        r.deep_view().to_set() == text_overrides(text@),
{
    let ghost t = text@;
    let len = text.unicode_len();
    let mut res: Vec<String> = Vec::new();
    let mut blk: Option<usize> = None;
    let mut pos: usize = 0;
    while pos < len
        invariant
            t == text@,
            len == t.len(),
            pos <= len,
            res.deep_view().to_set() == overrides_upto(t, pos as int),
            match blk {
                Some(b) => {
                    &&& b < pos
                    &&& t[b as int] == '{'
                    &&& forall|k: int| b < k < pos ==> !is_brace(#[trigger] t[k])
                    &&& forall|ii: int|
                        0 <= ii < pos && ii != b && t[ii] == '{' ==> exists|k: int|
                            ii < k < pos && is_brace(#[trigger] t[k])
                },
                None => forall|ii: int|
                    0 <= ii < pos && t[ii] == '{' ==> exists|k: int|
                        ii < k < pos && is_brace(#[trigger] t[k]),
            },
        decreases len - pos,
    {
        let c = text.get_char(pos);
        if c == '{' {
            proof {
                lemma_no_block_ends_here(t, pos as int);
                assert(overrides_upto(t, pos as int) =~= overrides_upto(t, pos + 1));
            }
            blk = Some(pos);
        } else if c == '}' {
            match blk {
                Some(b) => {
                    assert(is_block(t, b as int, pos as int));
                    proof {
                        lemma_unique_block_start(t, b as int, pos as int);
                    }
                    let name = process_block(text, b, pos);
                    match name {
                        Some(s) => {
                            let ghost old_dv = res.deep_view();
                            let ghost sv = s@;
                            res.push(s);
                            proof {
                                assert(res.deep_view() =~= old_dv.push(sv));
                                lemma_push_to_set(old_dv, sv);
                                lemma_upto_extend_block(t, b as int, pos as int);
                                assert(res.deep_view().to_set() =~= overrides_upto(
                                    t,
                                    pos + 1,
                                ));
                            }
                        },
                        None => {
                            proof {
                                lemma_upto_extend_block(t, b as int, pos as int);
                                assert(overrides_upto(t, pos as int) =~= overrides_upto(
                                    t,
                                    pos + 1,
                                ));
                            }
                        },
                    }
                    blk = None;
                },
                None => {
                    proof {
                        lemma_no_open_no_block(t, pos as int);
                        assert(overrides_upto(t, pos as int) =~= overrides_upto(t, pos + 1));
                    }
                },
            }
        } else {
            proof {
                lemma_no_block_ends_here(t, pos as int);
                assert(overrides_upto(t, pos as int) =~= overrides_upto(t, pos + 1));
            }
        }
        pos = pos + 1;
    }
    proof {
        assert(overrides_upto(t, len as int) =~= text_overrides(t));
    }
    res
}

/// Pushing an element onto a sequence inserts it into the sequence's set.
proof fn lemma_push_to_set<A>(s: Seq<A>, x: A)
    ensures
        s.push(x).to_set() =~= s.to_set().insert(x),
{
    assert forall|y: A| s.push(x).to_set().contains(y) implies s.to_set().insert(x).contains(
        y,
    ) by {
        let i = choose|i: int| 0 <= i < s.push(x).len() && s.push(x)[i] == y;
        if i < s.len() {
            assert(s[i] == y);
        }
    }
    assert forall|y: A| s.to_set().insert(x).contains(y) implies s.push(x).to_set().contains(
        y,
    ) by {
        if y == x {
            assert(s.push(x)[s.len() as int] == y);
        } else {
            let i = choose|i: int| 0 <= i < s.len() && s[i] == y;
            assert(s.push(x)[i] == y);
        }
    }
}

/// No block closes at a position that does not hold `}`.
proof fn lemma_no_block_ends_here(t: Seq<char>, pos: int)
    requires
        0 <= pos < t.len(),
        t[pos] != '}',
    ensures
        forall|i: int, n: Seq<char>|
            !(is_block(t, i, pos) && block_font(t, i, pos) == Some(n)),
{
}

/// Every block closing at `j` starts at `b`: positions between `b` and `j`
/// hold no brace, and any earlier `{` is followed by a brace before `j`.
proof fn lemma_unique_block_start(t: Seq<char>, b: int, j: int)
    requires
        is_block(t, b, j),
        forall|ii: int|
            0 <= ii < j && ii != b && t[ii] == '{' ==> exists|k: int|
                ii < k < j && is_brace(#[trigger] t[k]),
    ensures
        forall|i: int| is_block(t, i, j) ==> i == b,
{
    assert forall|i: int| is_block(t, i, j) implies i == b by {
        if i != b {
            assert(t[i] == '{');
            if i < b {
                assert(is_brace(t[b]));
            } else {
                let k = choose|k: int| i < k < j && is_brace(#[trigger] t[k]);
                assert(!is_brace(t[k]));
            }
        }
    }
}

/// Closing the unique block `(b, j)` extends the collected overrides by
/// exactly that block's contribution.
proof fn lemma_upto_extend_block(t: Seq<char>, b: int, j: int)
    requires
        is_block(t, b, j),
        forall|i: int| is_block(t, i, j) ==> i == b,
    ensures
        match block_font(t, b, j) {
            Some(n) => overrides_upto(t, j + 1) =~= overrides_upto(t, j).insert(n),
            None => overrides_upto(t, j + 1) =~= overrides_upto(t, j),
        },
{
    match block_font(t, b, j) {
        Some(n) => {
            assert forall|x: Seq<char>| overrides_upto(t, j + 1).contains(x) implies overrides_upto(
                t,
                j,
            ).insert(n).contains(x) by {
                let (i, jj): (int, int) = choose|i: int, jj: int|
                    jj < j + 1 && is_block(t, i, jj) && block_font(t, i, jj) == Some(x);
                if jj == j {
                    assert(i == b);
                } else {
                    assert(overrides_upto(t, j).contains(x));
                }
            }
            assert forall|x: Seq<char>| overrides_upto(t, j).insert(n).contains(x)
                implies overrides_upto(t, j + 1).contains(x) by {
                if x == n {
                    assert(is_block(t, b, j) && block_font(t, b, j) == Some(x));
                } else {
                    let (i, jj): (int, int) = choose|i: int, jj: int|
                        jj < j && is_block(t, i, jj) && block_font(t, i, jj) == Some(x);
                    assert(jj < j + 1 && is_block(t, i, jj) && block_font(t, i, jj) == Some(x));
                }
            }
        },
        None => {
            assert forall|x: Seq<char>| overrides_upto(t, j + 1).contains(x)
                implies overrides_upto(t, j).contains(x) by {
                let (i, jj): (int, int) = choose|i: int, jj: int|
                    jj < j + 1 && is_block(t, i, jj) && block_font(t, i, jj) == Some(x);
                if jj == j {
                    assert(i == b);
                    assert(false);
                }
            }
        },
    }
}

/// `n` with a leading vertical-text marker `@` stripped.
pub open spec fn spec_strip_at(n: Seq<char>) -> Seq<char> {
    if n.len() > 0 && n[0] == '@' {
        n.subrange(1, n.len() as int)
    } else {
        n
    }
}

/// The image of a name set under `spec_strip_at`.
pub open spec fn strip_image(s: Set<Seq<char>>) -> Set<Seq<char>> {
    Set::new(|n: Seq<char>| exists|raw: Seq<char>| s.contains(raw) && n == spec_strip_at(raw))
}

/// Style names referenced by a dialogue event among the first `m` events.
pub open spec fn used_styles_upto(events: Seq<EventEntryView>, m: int) -> Set<Seq<char>> {
    Set::new(
        |s: Seq<char>|
            exists|k: int|
                0 <= k < m && (#[trigger] events[k]).is_dialogue && events[k].style == s,
    )
}

/// Style names referenced by at least one dialogue event.
pub open spec fn used_styles(events: Seq<EventEntryView>) -> Set<Seq<char>> {
    used_styles_upto(events, events.len() as int)
}

/// Stripped inline override names contributed by the first `m` events.
pub open spec fn events_overrides(events: Seq<EventEntryView>, m: int) -> Set<Seq<char>> {
    Set::new(
        |n: Seq<char>|
            exists|k: int|
                0 <= k < m && (#[trigger] events[k]).is_dialogue && strip_image(
                    text_overrides(events[k].text),
                ).contains(n),
    )
}

/// Stripped font names of the first `m` styles whose name some dialogue
/// event uses.
pub open spec fn style_fonts(
    styles: Seq<StyleEntryView>,
    events: Seq<EventEntryView>,
    m: int,
) -> Set<Seq<char>> {
    Set::new(
        |n: Seq<char>|
            exists|k: int|
                0 <= k < m && used_styles(events).contains((#[trigger] styles[k]).name) && n
                    == spec_strip_at(styles[k].fontname),
    )
}

/// Every font name one document uses: the inline overrides of its dialogue
/// events plus the fonts of the styles those events reference, all with a
/// leading `@` stripped.
pub open spec fn doc_fonts(
    styles: Seq<StyleEntryView>,
    events: Seq<EventEntryView>,
) -> Set<Seq<char>> {
    events_overrides(events, events.len() as int).union(
        style_fonts(styles, events, styles.len() as int),
    )
}

proof fn lemma_used_styles_step(events: Seq<EventEntryView>, m: int)
    requires
        0 <= m < events.len(),
    ensures
        events[m].is_dialogue ==> used_styles_upto(events, m + 1) =~= used_styles_upto(
            events,
            m,
        ).insert(events[m].style),
        !events[m].is_dialogue ==> used_styles_upto(events, m + 1) =~= used_styles_upto(
            events,
            m,
        ),
{
    if events[m].is_dialogue {
        assert forall|s: Seq<char>| used_styles_upto(events, m + 1).contains(s)
            implies used_styles_upto(events, m).insert(events[m].style).contains(s) by {
            let k = choose|k: int|
                0 <= k < m + 1 && (#[trigger] events[k]).is_dialogue && events[k].style == s;
            if k < m {
                assert(used_styles_upto(events, m).contains(s));
            }
        }
    } else {
        assert forall|s: Seq<char>| used_styles_upto(events, m + 1).contains(s)
            implies used_styles_upto(events, m).contains(s) by {
            let k = choose|k: int|
                0 <= k < m + 1 && (#[trigger] events[k]).is_dialogue && events[k].style == s;
            assert(k < m);
        }
    }
}

proof fn lemma_events_overrides_step(events: Seq<EventEntryView>, m: int)
    requires
        0 <= m < events.len(),
    ensures
        events[m].is_dialogue ==> events_overrides(events, m + 1) =~= events_overrides(
            events,
            m,
        ).union(strip_image(text_overrides(events[m].text))),
        !events[m].is_dialogue ==> events_overrides(events, m + 1) =~= events_overrides(
            events,
            m,
        ),
{
    assert forall|n: Seq<char>| events_overrides(events, m + 1).contains(n) implies (
    events_overrides(events, m).contains(n) || (events[m].is_dialogue && strip_image(
        text_overrides(events[m].text),
    ).contains(n))) by {
        let k = choose|k: int|
            0 <= k < m + 1 && (#[trigger] events[k]).is_dialogue && strip_image(
                text_overrides(events[k].text),
            ).contains(n);
        if k < m {
            assert(events_overrides(events, m).contains(n));
        }
    }
}

proof fn lemma_style_fonts_step(styles: Seq<StyleEntryView>, events: Seq<EventEntryView>, m: int)
    requires
        0 <= m < styles.len(),
    ensures
        used_styles(events).contains(styles[m].name) ==> style_fonts(styles, events, m + 1)
            =~= style_fonts(styles, events, m).insert(spec_strip_at(styles[m].fontname)),
        !used_styles(events).contains(styles[m].name) ==> style_fonts(styles, events, m + 1)
            =~= style_fonts(styles, events, m),
{
    assert forall|n: Seq<char>| style_fonts(styles, events, m + 1).contains(n) implies (
    style_fonts(styles, events, m).contains(n) || (used_styles(events).contains(styles[m].name)
        && n == spec_strip_at(styles[m].fontname))) by {
        let k = choose|k: int|
            0 <= k < m + 1 && used_styles(events).contains((#[trigger] styles[k]).name) && n
                == spec_strip_at(styles[k].fontname);
        if k < m {
            assert(style_fonts(styles, events, m).contains(n));
        }
    }
}

/// Stripped names among the first `m` entries of `names`.
spec fn strip_prefix_set(names: Seq<Seq<char>>, m: int) -> Set<Seq<char>> {
    Set::new(
        |n: Seq<char>| exists|q: int| 0 <= q < m && n == spec_strip_at(#[trigger] names[q]),
    )
}

proof fn lemma_strip_prefix_full(names: Seq<Seq<char>>)
    ensures
        strip_prefix_set(names, names.len() as int) =~= strip_image(names.to_set()),
{
    assert forall|n: Seq<char>| strip_image(names.to_set()).contains(n)
        implies strip_prefix_set(names, names.len() as int).contains(n) by {
        let raw = choose|raw: Seq<char>| names.to_set().contains(raw) && n == spec_strip_at(raw);
        let q = choose|q: int| 0 <= q < names.len() && names[q] == raw;
        assert(n == spec_strip_at(names[q]));
    }
}

/// `s` with a leading `@` stripped.
fn strip_at(s: &String) -> (r: String)
    ensures
        r@ == spec_strip_at(s@),
{
    let len = s.as_str().unicode_len();
    if len > 0 && s.as_str().get_char(0) == '@' {
        s.as_str().substring_char(1, len).to_owned()
    } else {
        s.clone()
    }
}

/// Whether `v` holds a string equal to `s`.
fn vec_contains(v: &Vec<String>, s: &String) -> (r: bool)
    ensures
        r == v.deep_view().to_set().contains(s@),
{
    let mut k: usize = 0;
    while k < v.len()
        invariant
            k <= v.len(),
            forall|q: int| 0 <= q < k ==> v.deep_view()[q] != s@,
        decreases v.len() - k,
    {
        proof {
            assert(v.deep_view()[k as int] == v@[k as int]@);
        }
        if v[k] == *s {
            proof {
                assert(v.deep_view().to_set().contains(s@));
            }
            return true;
        }
        k = k + 1;
    }
    proof {
        assert forall|q: int| 0 <= q < v.deep_view().len() implies v.deep_view()[q] != s@ by {}
        assert(!v.deep_view().contains(s@));
    }
    false
}

/// Append `s` unless an equal string is already present; keeps the vector
/// duplicate-free and makes its content grow by exactly `s`.
fn push_unique(v: &mut Vec<String>, s: &String)
    ensures
        final(v).deep_view().to_set() =~= old(v).deep_view().to_set().insert(s@),
        old(v).deep_view().no_duplicates() ==> final(v).deep_view().no_duplicates(),
{
    let ghost dv = v.deep_view();
    let mut k: usize = 0;
    while k < v.len()
        invariant
            k <= v.len(),
            dv == v.deep_view(),
            forall|q: int| 0 <= q < k ==> dv[q] != s@,
        decreases v.len() - k,
    {
        if v[k] == *s {
            proof {
                assert(dv[k as int] == s@);
                assert(dv.to_set().contains(s@));
                assert(dv.to_set().insert(s@) =~= dv.to_set());
            }
            return ;
        }
        k = k + 1;
    }
    proof {
        assert(forall|q: int| 0 <= q < dv.len() ==> dv[q] != s@);
        assert(!dv.contains(s@));
    }
    v.push(s.clone());
    proof {
        assert(v.deep_view() =~= dv.push(s@));
        lemma_push_to_set(dv, s@);
        if dv.no_duplicates() {
            assert forall|a: int, b: int|
                0 <= a < v.deep_view().len() && 0 <= b < v.deep_view().len() && a != b
                implies v.deep_view()[a] != v.deep_view()[b] by {
                if a < dv.len() && b < dv.len() {
                } else if a == dv.len() {
                    assert(dv[b] != s@);
                } else if b == dv.len() {
                    assert(dv[a] != s@);
                }
            }
        }
    }
}

/// With every earlier `{` already followed by a brace, no block closes at `j`.
proof fn lemma_no_open_no_block(t: Seq<char>, j: int)
    requires
        0 <= j < t.len(),
        forall|ii: int|
            0 <= ii < j && t[ii] == '{' ==> exists|k: int|
                ii < k < j && is_brace(#[trigger] t[k]),
    ensures
        forall|i: int, n: Seq<char>| !(is_block(t, i, j) && block_font(t, i, j) == Some(n)),
{
    assert forall|i: int| !is_block(t, i, j) by {
        if is_block(t, i, j) {
            assert(t[i] == '{');
            let k = choose|k: int| i < k < j && is_brace(#[trigger] t[k]);
            assert(!is_brace(t[k]));
        }
    }
}

/// The set of font names one or more documents use, duplicate-free.
pub struct SsaFonts {
    fonts: Vec<String>,
}

impl View for SsaFonts {
    type V = Seq<Seq<char>>;

    closed spec fn view(&self) -> Seq<Seq<char>> {
        self.fonts.deep_view()
    }
}

impl SsaFonts {
    /// The collected names as a set.
    pub open spec fn font_set(&self) -> Set<Seq<char>> {
        self@.to_set()
    }

    /// The collected names hold no duplicates.
    pub open spec fn wf(&self) -> bool {
        self@.no_duplicates()
    }

    pub fn new() -> (r: SsaFonts)
        ensures
            r@ == Seq::<Seq<char>>::empty(),
            r.wf(),
    {
        SsaFonts { fonts: Vec::new() }
    }

    pub fn inner(&self) -> (r: &Vec<String>)
        ensures
            r.deep_view() == self@,
    {
        &self.fonts
    }

    /// Extract the font-usage set of one document given its tokenized
    /// Styles and Events sections.
    pub fn get_ssa_fonts(styles: &Vec<StyleEntry>, events: &Vec<EventEntry>) -> (r: Vec<String>)
        ensures
            r.deep_view().to_set() =~= doc_fonts(styles.deep_view(), events.deep_view()),
            r.deep_view().no_duplicates(),
    {
        let ghost st = styles.deep_view();
        let ghost ev = events.deep_view();
        let mut fonts: Vec<String> = Vec::new();
        let mut used: Vec<String> = Vec::new();
        let e_len = events.len();
        let mut e_idx: usize = 0;
        while e_idx < e_len
            invariant
                st == styles.deep_view(),
                ev == events.deep_view(),
                e_len == events.len(),
                e_idx <= e_len,
                fonts.deep_view().to_set() =~= events_overrides(ev, e_idx as int),
                used.deep_view().to_set() =~= used_styles_upto(ev, e_idx as int),
                fonts.deep_view().no_duplicates(),
                used.deep_view().no_duplicates(),
            decreases e_len - e_idx,
        {
            let e = &events[e_idx];
            proof {
                lemma_used_styles_step(ev, e_idx as int);
                lemma_events_overrides_step(ev, e_idx as int);
            }
            if e.is_dialogue {
                push_unique(&mut used, &e.style);
                let names = text_override_names(e.text.as_str());
                let ghost names_dv = names.deep_view();
                let n_len = names.len();
                let mut n_idx: usize = 0;
                while n_idx < n_len
                    invariant
                        ev == events.deep_view(),
                        names_dv == names.deep_view(),
                        n_len == names.len(),
                        n_idx <= n_len,
                        e_idx < e_len <= ev.len(),
                        fonts.deep_view().to_set() =~= events_overrides(
                            ev,
                            e_idx as int,
                        ).union(strip_prefix_set(names_dv, n_idx as int)),
                        fonts.deep_view().no_duplicates(),
                    decreases n_len - n_idx,
                {
                    let stripped = strip_at(&names[n_idx]);
                    push_unique(&mut fonts, &stripped);
                    proof {
                        assert(strip_prefix_set(names_dv, n_idx + 1) =~= strip_prefix_set(
                            names_dv,
                            n_idx as int,
                        ).insert(spec_strip_at(names_dv[n_idx as int])));
                    }
                    n_idx = n_idx + 1;
                }
                proof {
                    lemma_strip_prefix_full(names_dv);
                    assert(names_dv.to_set() =~= text_overrides(ev[e_idx as int].text));
                    assert(strip_image(names_dv.to_set()) =~= strip_image(
                        text_overrides(ev[e_idx as int].text),
                    ));
                }
            }
            e_idx = e_idx + 1;
        }
        let s_len = styles.len();
        let mut s_idx: usize = 0;
        while s_idx < s_len
            invariant
                st == styles.deep_view(),
                ev == events.deep_view(),
                s_len == styles.len(),
                s_idx <= s_len,
                used.deep_view().to_set() =~= used_styles(ev),
                fonts.deep_view().to_set() =~= events_overrides(ev, ev.len() as int).union(
                    style_fonts(st, ev, s_idx as int),
                ),
                fonts.deep_view().no_duplicates(),
            decreases s_len - s_idx,
        {
            let s = &styles[s_idx];
            proof {
                lemma_style_fonts_step(st, ev, s_idx as int);
                assert(st[s_idx as int].name == styles@[s_idx as int].name@);
            }
            let is_used = vec_contains(&used, &s.name);
            if is_used {
                let stripped = strip_at(&s.fontname);
                push_unique(&mut fonts, &stripped);
            }
            s_idx = s_idx + 1;
        }
        fonts
    }

    /// Merge one document's font-usage set into this set.
    pub fn index(&mut self, styles: &Vec<StyleEntry>, events: &Vec<EventEntry>)
        requires
            old(self).wf(),
        ensures
            final(self).wf(),
            final(self).font_set() =~= old(self).font_set().union(
                doc_fonts(styles.deep_view(), events.deep_view()),
            ),
    {
        let doc = Self::get_ssa_fonts(styles, events);
        let ghost doc_dv = doc.deep_view();
        let d_len = doc.len();
        let mut d_idx: usize = 0;
        while d_idx < d_len
            invariant
                doc_dv == doc.deep_view(),
                d_len == doc.len(),
                d_idx <= d_len,
                self.wf(),
                self.font_set() =~= old(self).font_set().union(
                    strip_none_prefix_set(doc_dv, d_idx as int),
                ),
            decreases d_len - d_idx,
        {
            push_unique(&mut self.fonts, &doc[d_idx]);
            proof {
                assert(strip_none_prefix_set(doc_dv, d_idx + 1) =~= strip_none_prefix_set(
                    doc_dv,
                    d_idx as int,
                ).insert(doc_dv[d_idx as int]));
            }
            d_idx = d_idx + 1;
        }
        proof {
            assert(strip_none_prefix_set(doc_dv, d_len as int) =~= doc_dv.to_set());
        }
    }
}

/// `s` is sorted in lexicographic code-point order.
pub open spec fn seq_sorted(s: Seq<Seq<char>>) -> bool {
    forall|x: int, y: int| 0 <= x < y < s.len() ==> lex_le(#[trigger] s[x], #[trigger] s[y])
}

/// The names sorted in lexicographic code-point order.
pub open spec fn spec_sorted_fonts(s: Seq<Seq<char>>) -> Seq<Seq<char>> {
    s.sort_by(|x: Seq<char>, y: Seq<char>| lex_le(x, y))
}

/// `lex_le` is a total order on strings.
pub proof fn lemma_lex_le_total_ordering()
    ensures
        vstd::relations::total_ordering(|x: Seq<char>, y: Seq<char>| lex_le(x, y)),
{
    let leq = |x: Seq<char>, y: Seq<char>| lex_le(x, y);
    assert forall|x: Seq<char>| #[trigger] leq(x, x) by {
        lemma_lex_refl_from(x, 0);
    }
    assert forall|x: Seq<char>, y: Seq<char>| #[trigger] leq(x, y) && #[trigger] leq(y, x)
        implies x == y by {
        crate::utils::lemma_lex_antisym(x, y);
    }
    assert forall|x: Seq<char>, y: Seq<char>, z: Seq<char>|
        #[trigger] leq(x, y) && #[trigger] leq(y, z) implies leq(x, z) by {
        lemma_lex_trans(x, y, z);
    }
    assert forall|x: Seq<char>, y: Seq<char>| #[trigger] leq(x, y) || #[trigger] leq(
        y,
        x,
    ) by {
        lemma_lex_total(x, y);
    }
}

/// A multiset of names has exactly one sorted arrangement.
pub proof fn lemma_sorted_unique(a: Seq<Seq<char>>, b: Seq<Seq<char>>)
    requires
        seq_sorted(a),
        seq_sorted(b),
        a.to_multiset() == b.to_multiset(),
    ensures
        a == b,
    decreases a.len(),
{
    a.to_multiset_ensures();
    b.to_multiset_ensures();
    if a.len() == 0 {
        assert(a =~= b);
    } else {
        assert(b.len() == a.len());
        assert(a.contains(a[0]));
        assert(a.to_multiset().count(a[0]) > 0);
        assert(b.contains(a[0]));
        let j = choose|j: int| 0 <= j < b.len() && b[j] == a[0];
        assert(lex_le(b[0], a[0])) by {
            if j == 0 {
                lemma_lex_refl_from(b[0], 0);
            }
        }
        assert(b.contains(b[0]));
        assert(b.to_multiset().count(b[0]) > 0);
        assert(a.to_multiset().count(b[0]) > 0);
        assert(a.contains(b[0]));
        let k = choose|k: int| 0 <= k < a.len() && a[k] == b[0];
        assert(lex_le(a[0], b[0])) by {
            if k == 0 {
                lemma_lex_refl_from(a[0], 0);
            }
        }
        crate::utils::lemma_lex_antisym(a[0], b[0]);
        let ta = a.drop_first();
        let tb = b.drop_first();
        assert(a.remove(0) =~= ta);
        assert(b.remove(0) =~= tb);
        assert(a.remove(0).to_multiset() =~= a.to_multiset().remove(a[0]));
        assert(b.remove(0).to_multiset() =~= b.to_multiset().remove(b[0]));
        assert(ta.to_multiset() == a.to_multiset().remove(a[0]));
        assert(tb.to_multiset() == b.to_multiset().remove(b[0]));
        assert(seq_sorted(ta)) by {
            assert forall|x: int, y: int| 0 <= x < y < ta.len() implies lex_le(
                #[trigger] ta[x],
                #[trigger] ta[y],
            ) by {
                assert(a[x + 1] == ta[x] && a[y + 1] == ta[y]);
            }
        }
        assert(seq_sorted(tb)) by {
            assert forall|x: int, y: int| 0 <= x < y < tb.len() implies lex_le(
                #[trigger] tb[x],
                #[trigger] tb[y],
            ) by {
                assert(b[x + 1] == tb[x] && b[y + 1] == tb[y]);
            }
        }
        lemma_sorted_unique(ta, tb);
        assert forall|q: int| 0 <= q < a.len() implies a[q] == b[q] by {
            if q > 0 {
                assert(ta[q - 1] == tb[q - 1]);
            }
        }
        assert(a =~= b);
    }
}

impl SsaFonts {
    /// The collected names in lexicographically sorted order.
    pub fn sorted(&self) -> (r: Vec<String>)
        ensures
            r.deep_view() == spec_sorted_fonts(self@),
            seq_sorted(r.deep_view()),
            r.deep_view().to_multiset() == self@.to_multiset(),
    {
        broadcast use vstd::seq_lib::group_to_multiset_ensures;

        let mut src: Vec<String> = Vec::new();
        let mut i: usize = 0;
        while i < self.fonts.len()
            invariant
                i <= self.fonts.len(),
                src.deep_view() =~= self@.take(i as int),
            decreases self.fonts.len() - i,
        {
            proof {
                assert(self@[i as int] == self.fonts@[i as int]@);
            }
            let ghost src_old = src.deep_view();
            src.push(self.fonts[i].clone());
            proof {
                assert(src.deep_view() =~= src_old.push(self@[i as int]));
                assert(src.deep_view() =~= self@.take(i + 1));
            }
            i = i + 1;
        }
        proof {
            assert(self@.take(self@.len() as int) =~= self@);
        }
        let mut r: Vec<String> = Vec::new();
        while src.len() > 0
            invariant
                seq_sorted(r.deep_view()),
                forall|x: int, y: int|
                    0 <= x < r.deep_view().len() && 0 <= y < src.deep_view().len() ==> lex_le(
                        #[trigger] r.deep_view()[x],
                        #[trigger] src.deep_view()[y],
                    ),
                r.deep_view().to_multiset().add(src.deep_view().to_multiset())
                    == self@.to_multiset(),
            decreases src.len(),
        {
            let ghost src_dv = src.deep_view();
            let ghost r_dv = r.deep_view();
            let min = min_index(&src);
            let x = src.remove(min);
            proof {
                assert(src.deep_view() =~= src_dv.remove(min as int));
                assert(x@ == src_dv[min as int]);
            }
            r.push(x);
            proof {
                let xm = src_dv[min as int];
                assert(r.deep_view() =~= r_dv.push(xm));
                vstd::seq_lib::to_multiset_remove(src_dv, min as int);
                vstd::seq_lib::to_multiset_build(r_dv, xm);
                vstd::seq_lib::to_multiset_contains(src_dv, xm);
                assert(src_dv.contains(xm));
                assert(src_dv.to_multiset().count(xm) > 0);
                assert(r.deep_view().to_multiset().add(src.deep_view().to_multiset())
                    =~= self@.to_multiset());
                assert forall|a: int, b: int|
                    0 <= a < b < r.deep_view().len() implies lex_le(
                    #[trigger] r.deep_view()[a],
                    #[trigger] r.deep_view()[b],
                ) by {
                    if b == r.deep_view().len() - 1 {
                        assert(lex_le(r_dv[a], src_dv[min as int]));
                    }
                }
                assert forall|a: int, y: int|
                    0 <= a < r.deep_view().len() && 0 <= y < src.deep_view().len() implies lex_le(
                    #[trigger] r.deep_view()[a],
                    #[trigger] src.deep_view()[y],
                ) by {
                    let orig: int = if y < min { y } else { y + 1 };
                    assert(src.deep_view()[y] == src_dv[orig]);
                    if a == r.deep_view().len() - 1 {
                        assert(lex_le(src_dv[min as int], src_dv[orig]));
                    } else {
                        assert(lex_le(r_dv[a], src_dv[orig]));
                    }
                }
            }
        }
        proof {
            assert(src.deep_view() =~= Seq::<Seq<char>>::empty());
            assert(src.deep_view().to_multiset() =~= Multiset::<Seq<char>>::empty());
            assert(r.deep_view().to_multiset() =~= self@.to_multiset());
            let leq = |x: Seq<char>, y: Seq<char>| lex_le(x, y);
            lemma_lex_le_total_ordering();
            self@.lemma_sort_by_ensures(leq);
            assert(seq_sorted(spec_sorted_fonts(self@))) by {
                assert forall|x: int, y: int|
                    0 <= x < y < spec_sorted_fonts(self@).len() implies lex_le(
                    #[trigger] spec_sorted_fonts(self@)[x],
                    #[trigger] spec_sorted_fonts(self@)[y],
                ) by {
                    assert(leq(spec_sorted_fonts(self@)[x], spec_sorted_fonts(self@)[y]));
                }
            }
            lemma_sorted_unique(r.deep_view(), spec_sorted_fonts(self@));
        }
        r
    }
}

/// Position of a least element of `v` under lexicographic order.
fn min_index(v: &Vec<String>) -> (r: usize)
    requires
        v.len() > 0,
    ensures
        r < v.len(),
        forall|q: int|
            0 <= q < v.deep_view().len() ==> lex_le(
                v.deep_view()[r as int],
                #[trigger] v.deep_view()[q],
            ),
{
    let mut min: usize = 0;
    let mut k: usize = 1;
    proof {
        lemma_lex_refl_from(v.deep_view()[0], 0);
    }
    while k < v.len()
        invariant
            min < k <= v.len(),
            forall|q: int|
                0 <= q < k ==> lex_le(v.deep_view()[min as int], #[trigger] v.deep_view()[q]),
        decreases v.len() - k,
    {
        proof {
            assert(v.deep_view()[k as int] == v@[k as int]@);
            assert(v.deep_view()[min as int] == v@[min as int]@);
        }
        if str_le(v[k].as_str(), v[min].as_str()) {
            proof {
                assert forall|q: int|
                    0 <= q < k + 1 implies lex_le(
                    v.deep_view()[k as int],
                    #[trigger] v.deep_view()[q],
                ) by {
                    if q < k {
                        lemma_lex_trans(
                            v.deep_view()[k as int],
                            v.deep_view()[min as int],
                            v.deep_view()[q],
                        );
                    } else {
                        lemma_lex_refl_from(v.deep_view()[k as int], 0);
                    }
                }
            }
            min = k;
        } else {
            proof {
                lemma_lex_total(v.deep_view()[k as int], v.deep_view()[min as int]);
            }
        }
        k = k + 1;
    }
    min
}

/// The set of the first `m` entries of `names`.
spec fn strip_none_prefix_set(names: Seq<Seq<char>>, m: int) -> Set<Seq<char>> {
    Set::new(|n: Seq<char>| exists|q: int| 0 <= q < m && n == #[trigger] names[q])
}

/// The text that exports the first `m` names: each followed by a newline.
pub open spec fn join_lines_upto(s: Seq<Seq<char>>, m: int) -> Seq<char>
    decreases m,
{
    if m <= 0 {
        Seq::empty()
    } else {
        join_lines_upto(s, m - 1) + s[m - 1] + "\n"@
    }
}

/// Position of the newline that ends the line starting at `p`, or the text's
/// end.
pub open spec fn line_end_from(s: Seq<char>, p: int) -> int
    decreases s.len() - p,
{
    if p >= s.len() {
        s.len() as int
    } else if s[p] == '\n' {
        p
    } else {
        line_end_from(s, p + 1)
    }
}

/// `l` with a trailing carriage return stripped.
pub open spec fn strip_cr(l: Seq<char>) -> Seq<char> {
    if l.len() > 0 && l.last() == '\r' {
        l.drop_last()
    } else {
        l
    }
}

proof fn lemma_line_end_from(s: Seq<char>, p: int)
    requires
        p <= s.len(),
    ensures
        p <= line_end_from(s, p) <= s.len(),
    decreases s.len() - p,
{
    if p < s.len() && s[p] != '\n' {
        lemma_line_end_from(s, p + 1);
    }
}

/// The lines of an exported font list, one name each, split at newlines
/// with a trailing carriage return stripped from every line.
pub open spec fn spec_lines_from(s: Seq<char>, p: int) -> Seq<Seq<char>>
    decreases s.len() + 1 - p,
        via spec_lines_from_decreases
{
    if p >= s.len() {
        Seq::empty()
    } else {
        seq![strip_cr(s.subrange(p, line_end_from(s, p)))] + spec_lines_from(
            s,
            line_end_from(s, p) + 1,
        )
    }
}

#[via_fn]
proof fn spec_lines_from_decreases(s: Seq<char>, p: int) {
    if p < s.len() {
        lemma_line_end_from(s, p);
    }
}

/// Prepending an element inserts it into the sequence's set.
proof fn lemma_cons_to_set<A>(x: A, s: Seq<A>)
    ensures
        (seq![x] + s).to_set() =~= s.to_set().insert(x),
{
    assert forall|y: A| (seq![x] + s).to_set().contains(y) implies s.to_set().insert(x).contains(
        y,
    ) by {
        let i = choose|i: int| 0 <= i < (seq![x] + s).len() && (seq![x] + s)[i] == y;
        if i > 0 {
            assert(s[i - 1] == y);
        }
    }
    assert forall|y: A| s.to_set().insert(x).contains(y) implies (seq![x] + s).to_set().contains(
        y,
    ) by {
        if y == x {
            assert((seq![x] + s)[0] == y);
        } else {
            let i = choose|i: int| 0 <= i < s.len() && s[i] == y;
            assert((seq![x] + s)[i + 1] == y);
        }
    }
}

impl SsaFonts {
    /// Export the collected names as text: one name per line, lines sorted
    /// lexicographically, each followed by a newline.
    pub fn to_text(&self) -> (r: String)
        ensures
            r@ == join_lines_upto(
                spec_sorted_fonts(self@),
                spec_sorted_fonts(self@).len() as int,
            ),
    {
        let v = self.sorted();
        join_lines(&v)
    }

    /// Re-read an exported font list: one name per line, duplicates
    /// collapsing into the set.
    pub fn from_text(s: &str) -> (r: SsaFonts)
        ensures
            r.wf(),
            r.font_set() =~= spec_lines_from(s@, 0).to_set(),
    {
        let ghost t = s@;
        let len = s.unicode_len();
        let mut fonts: Vec<String> = Vec::new();
        let mut p: usize = 0;
        while p < len
            invariant
                t == s@,
                len == t.len(),
                p <= len,
                fonts.deep_view().to_set().union(spec_lines_from(t, p as int).to_set())
                    =~= spec_lines_from(t, 0).to_set(),
                fonts.deep_view().no_duplicates(),
            decreases len - p,
        {
            let mut e = p;
            while e < len && s.get_char(e) != '\n'
                invariant
                    t == s@,
                    len == t.len(),
                    p <= e <= len,
                    line_end_from(t, p as int) == line_end_from(t, e as int),
                decreases len - e,
            {
                e = e + 1;
            }
            proof {
                assert(line_end_from(t, e as int) == e);
            }
            let mut line_end = e;
            if line_end > p && s.get_char(line_end - 1) == '\r' {
                line_end = line_end - 1;
            }
            let line = s.substring_char(p, line_end).to_owned();
            proof {
                assert(line@ =~= strip_cr(t.subrange(p as int, e as int)));
            }
            let ghost before = fonts.deep_view().to_set();
            push_unique(&mut fonts, &line);
            proof {
                lemma_cons_to_set(
                    strip_cr(t.subrange(p as int, e as int)),
                    spec_lines_from(t, e + 1),
                );
                assert(spec_lines_from(t, p as int).to_set() =~= spec_lines_from(
                    t,
                    e + 1,
                ).to_set().insert(strip_cr(t.subrange(p as int, e as int))));
                assert(fonts.deep_view().to_set().union(spec_lines_from(t, e + 1).to_set())
                    =~= spec_lines_from(t, 0).to_set());
            }
            if e < len {
                p = e + 1;
            } else {
                proof {
                    assert(spec_lines_from(t, e + 1).to_set() =~= spec_lines_from(
                        t,
                        len as int,
                    ).to_set());
                }
                p = len;
            }
        }
        proof {
            assert(spec_lines_from(t, p as int).to_set() =~= Set::<Seq<char>>::empty());
        }
        SsaFonts { fonts }
    }
}

/// Join names into the exported text: each name followed by a newline.
pub fn join_lines(v: &Vec<String>) -> (r: String)
    ensures
        r@ == join_lines_upto(v.deep_view(), v@.len() as int),
{
    let mut out = String::new();
    let mut i: usize = 0;
    while i < v.len()
        invariant
            i <= v.len(),
            out@ == join_lines_upto(v.deep_view(), i as int),
        decreases v.len() - i,
    {
        proof {
            assert(v.deep_view()[i as int] == v@[i as int]@);
        }
        out.append(v[i].as_str());
        out.append("\n");
        i = i + 1;
    }
    out
}

} // verus!
