//! The symbolic permission-mode parser.
//!
//! A mode expression is either a bare combination of `r`, `w`, `x`
//! (granted to user, group and other alike), or a comma-separated list of
//! `class=perms` segments with `class` one of `u`, `g`, `o`. The input is
//! lower-cased before parsing, and the grammar is chosen by the presence
//! of `=` anywhere in the lowered expression.

use vstd::prelude::*;

verus! {

/// The nine permission flags: {user, group, other} x {read, write, execute}.
#[derive(Debug, Clone, Copy, PartialEq, Eq, Structural)]
pub struct Mode {
    pub user_read: bool,
    pub user_write: bool,
    pub user_execute: bool,
    pub group_read: bool,
    pub group_write: bool,
    pub group_execute: bool,
    pub other_read: bool,
    pub other_write: bool,
    pub other_execute: bool,
}

/// Why a mode expression was rejected. The variants carry the offending
/// piece of the input; rendering to text is left to the caller.
#[derive(Debug, PartialEq, Eq)]
pub enum ModeError {
    /// The expression was empty.
    Empty,
    /// Under the comma-separated grammar, this segment had no `=`.
    MissingSeparator { segment: String },
    /// This segment's permission characters were not all in {r, w, x}.
    InvalidPermissions { segment: String },
    /// A segment's class was not `u`, `g` or `o`; `perm` is the first
    /// permission character it was paired with.
    UnknownClass { class: String, perm: char },
    /// A bare expression held a character outside {r, w, x}; carries the
    /// original, non-lowered expression.
    InvalidShorthand { expression: String },
}

/// The mode with every flag false.
pub open spec fn spec_mode_empty() -> Mode {
    Mode {
        user_read: false,
        user_write: false,
        user_execute: false,
        group_read: false,
        group_write: false,
        group_execute: false,
        other_read: false,
        other_write: false,
        other_execute: false,
    }
}

/// ASCII lower-casing of a single character; anything outside `A`..`Z`
/// is left as it is.
pub open spec fn lower_char(c: char) -> char {
    if c == 'A' { 'a' }
    else if c == 'B' { 'b' }
    else if c == 'C' { 'c' }
    else if c == 'D' { 'd' }
    else if c == 'E' { 'e' }
    else if c == 'F' { 'f' }
    else if c == 'G' { 'g' }
    else if c == 'H' { 'h' }
    else if c == 'I' { 'i' }
    else if c == 'J' { 'j' }
    else if c == 'K' { 'k' }
    else if c == 'L' { 'l' }
    else if c == 'M' { 'm' }
    else if c == 'N' { 'n' }
    else if c == 'O' { 'o' }
    else if c == 'P' { 'p' }
    else if c == 'Q' { 'q' }
    else if c == 'R' { 'r' }
    else if c == 'S' { 's' }
    else if c == 'T' { 't' }
    else if c == 'U' { 'u' }
    else if c == 'V' { 'v' }
    else if c == 'W' { 'w' }
    else if c == 'X' { 'x' }
    else if c == 'Y' { 'y' }
    else if c == 'Z' { 'z' }
    else { c }
}

/// Character-wise ASCII lower-casing of a whole expression.
pub open spec fn lower_view(s: Seq<char>) -> Seq<char> {
    s.map(|i: int, c: char| lower_char(c))
}

/// The index of the first occurrence of `c` in `s`, if any.
pub open spec fn find_char(s: Seq<char>, c: char) -> Option<int>
    decreases s.len(),
{
    if s.len() == 0 {
        None
    } else if s[0] == c {
        Some(0int)
    } else {
        match find_char(s.drop_first(), c) {
            None => None,
            Some(i) => Some(i + 1),
        }
    }
}

/// Whether `c` occurs anywhere in `s`.
pub open spec fn has_char(s: Seq<char>, c: char) -> bool {
    find_char(s, c) is Some
}

/// What `find_char` returns: the index of the first occurrence.
pub proof fn lemma_find_char(s: Seq<char>, c: char)
    ensures
        match find_char(s, c) {
            Some(i) => 0 <= i < s.len() && s[i] == c && (forall|j: int| 0 <= j < i ==> s[j] != c),
            None => forall|j: int| 0 <= j < s.len() ==> s[j] != c,
        },
    decreases s.len(),
{
    if s.len() != 0 && s[0] != c {
        let d = s.drop_first();
        lemma_find_char(d, c);
        match find_char(d, c) {
            Some(i) => {
                assert(s[i + 1] == d[i]);
                assert forall|j: int| 0 <= j < i + 1 implies s[j] != c by {
                    if j > 0 {
                        assert(d[j - 1] == s[j]);
                    }
                }
            },
            None => {
                assert forall|j: int| 0 <= j < s.len() implies s[j] != c by {
                    if j > 0 {
                        assert(d[j - 1] == s[j]);
                    }
                }
            },
        }
    }
}

/// `find_char` from a witness: if `c` stands at `i` and nowhere earlier,
/// the first occurrence is at `i`.
pub proof fn lemma_find_char_at(s: Seq<char>, c: char, i: int)
    requires
        0 <= i < s.len(),
        s[i] == c,
        forall|j: int| 0 <= j < i ==> s[j] != c,
    ensures
        find_char(s, c) == Some(i),
    decreases i,
{
    if i > 0 {
        lemma_find_char_at(s.drop_first(), c, i - 1);
    }
}

/// `find_char` when `c` occurs nowhere in `s`.
pub proof fn lemma_find_char_none(s: Seq<char>, c: char)
    requires
        forall|j: int| 0 <= j < s.len() ==> s[j] != c,
    ensures
        find_char(s, c) is None,
    decreases s.len(),
{
    if s.len() != 0 {
        lemma_find_char_none(s.drop_first(), c);
    }
}

/// `s` cut at every occurrence of `sep`: the list of parts, in order,
/// separators removed. A sequence without `sep` is one part; each
/// separator ends a part, so adjacent separators give empty parts.
pub open spec fn split_char(s: Seq<char>, sep: char) -> Seq<Seq<char>>
    decreases s.len(),
    via split_char_decreases
{
    match find_char(s, sep) {
        None => seq![s],
        Some(i) => seq![s.take(i)] + split_char(s.skip(i + 1), sep),
    }
}

#[via_fn]
proof fn split_char_decreases(s: Seq<char>, sep: char) {
    lemma_find_char(s, sep);
}

/// One step of `split_char`, phrased over a witness index rather than
/// `find_char`.
pub proof fn lemma_split_char_step(s: Seq<char>, sep: char, i: int)
    requires
        0 <= i < s.len(),
        s[i] == sep,
        forall|j: int| 0 <= j < i ==> s[j] != sep,
    ensures
        split_char(s, sep) == seq![s.take(i)] + split_char(s.skip(i + 1), sep),
{
    lemma_find_char_at(s, sep, i);
}

/// `split_char` of a separator-free sequence is that sequence alone.
pub proof fn lemma_split_char_whole(s: Seq<char>, sep: char)
    requires
        forall|j: int| 0 <= j < s.len() ==> s[j] != sep,
    ensures
        split_char(s, sep) == seq![s],
{
    lemma_find_char_none(s, sep);
}

/// A permission character.
pub open spec fn is_perm_char(c: char) -> bool {
    c == 'r' || c == 'w' || c == 'x'
}

/// A class character.
pub open spec fn is_class_char(c: char) -> bool {
    c == 'u' || c == 'g' || c == 'o'
}

/// Every character of `s` is a permission character.
pub open spec fn all_perm_chars(s: Seq<char>) -> bool {
    forall|i: int| 0 <= i < s.len() ==> is_perm_char(s[i])
}

/// A well-formed `class=perms` segment: it has an `=`, the permission
/// characters after the first `=` are all in {r, w, x}, and, unless they
/// are empty, the class before it is exactly `u`, `g` or `o`.
pub open spec fn seg_ok(g: Seq<char>) -> bool {
    match find_char(g, '=') {
        None => false,
        Some(k) => {
            let class = g.take(k);
            let perms = g.skip(k + 1);
            all_perm_chars(perms) && (perms.len() == 0 || (class.len() == 1 && is_class_char(
                class[0],
            )))
        },
    }
}

/// Whether segment `g` grants permission `p` to class `c`.
pub open spec fn seg_grants(g: Seq<char>, c: char, p: char) -> bool {
    match find_char(g, '=') {
        None => false,
        Some(k) => g.take(k) == seq![c] && has_char(g.skip(k + 1), p),
    }
}

/// Whether any segment of `gs` grants permission `p` to class `c`.
pub open spec fn any_seg_grants(gs: Seq<Seq<char>>, c: char, p: char) -> bool {
    exists|i: int| 0 <= i < gs.len() && seg_grants(gs[i], c, p)
}

/// The mode that a list of well-formed segments denotes: exactly the
/// flags some segment grants, accumulated over all segments.
pub open spec fn symbolic_mode(gs: Seq<Seq<char>>) -> Mode {
    Mode {
        user_read: any_seg_grants(gs, 'u', 'r'),
        user_write: any_seg_grants(gs, 'u', 'w'),
        user_execute: any_seg_grants(gs, 'u', 'x'),
        group_read: any_seg_grants(gs, 'g', 'r'),
        group_write: any_seg_grants(gs, 'g', 'w'),
        group_execute: any_seg_grants(gs, 'g', 'x'),
        other_read: any_seg_grants(gs, 'o', 'r'),
        other_write: any_seg_grants(gs, 'o', 'w'),
        other_execute: any_seg_grants(gs, 'o', 'x'),
    }
}

/// Every segment of `gs` is well-formed.
pub open spec fn all_segs_ok(gs: Seq<Seq<char>>) -> bool {
    forall|i: int| 0 <= i < gs.len() ==> seg_ok(gs[i])
}

/// The mode that a bare expression denotes: each permission it names,
/// granted to user, group and other alike.
pub open spec fn shorthand_mode(t: Seq<char>) -> Mode {
    Mode {
        user_read: has_char(t, 'r'),
        user_write: has_char(t, 'w'),
        user_execute: has_char(t, 'x'),
        group_read: has_char(t, 'r'),
        group_write: has_char(t, 'w'),
        group_execute: has_char(t, 'x'),
        other_read: has_char(t, 'r'),
        other_write: has_char(t, 'w'),
        other_execute: has_char(t, 'x'),
    }
}

/// The error that an ill-formed segment `g` produces: a missing `=`
/// first, then a permission character outside {r, w, x}, then an unknown
/// class paired with the first permission character.
pub open spec fn seg_error_matches(e: ModeError, g: Seq<char>) -> bool {
    match find_char(g, '=') {
        None => e matches ModeError::MissingSeparator { segment } && segment@ == g,
        Some(k) => {
            let class = g.take(k);
            let perms = g.skip(k + 1);
            if !all_perm_chars(perms) {
                e matches ModeError::InvalidPermissions { segment } && segment@ == g
            } else {
                (e matches ModeError::UnknownClass { class: cl, perm } && cl@ == class
                    && perms.len() > 0 && perm == perms[0])
            }
        },
    }
}

/// The error of a segment list: segment `i` is the first ill-formed one,
/// and `e` is its error.
pub open spec fn first_bad_segment(gs: Seq<Seq<char>>, e: ModeError, i: int) -> bool {
    &&& 0 <= i < gs.len()
    &&& !seg_ok(gs[i])
    &&& forall|j: int| 0 <= j < i ==> seg_ok(gs[j])
    &&& seg_error_matches(e, gs[i])
}

/// Relies on String::push: it appends the given character at the end.
#[verifier::external_body]
fn push_char(s: &mut String, c: char)
    ensures
        final(s)@ == old(s)@.push(c),
{
    s.push(c);
}

/// Lower-cases an expression character by character.
fn lowercased(s: &str) -> (r: String)
    ensures
        r@ == lower_view(s@),
{
    let n = s.unicode_len();
    let mut out = String::new();
    let mut i: usize = 0;
    while i < n
        invariant
            n == s@.len(),
            i <= n,
            out@ == lower_view(s@).take(i as int),
        decreases n - i,
    {
        let c = to_lower(s.get_char(i));
        push_char(&mut out, c);
        proof {
            assert(lower_view(s@).take(i + 1) =~= lower_view(s@).take(i as int).push(
                lower_char(s@[i as int]),
            ));
        }
        i += 1;
    }
    proof {
        assert(lower_view(s@).take(n as int) =~= lower_view(s@));
    }
    out
}

/// ASCII lower-casing of one character.
fn to_lower(c: char) -> (r: char)
    ensures
        r == lower_char(c),
{
    if c == 'A' { 'a' }
    else if c == 'B' { 'b' }
    else if c == 'C' { 'c' }
    else if c == 'D' { 'd' }
    else if c == 'E' { 'e' }
    else if c == 'F' { 'f' }
    else if c == 'G' { 'g' }
    else if c == 'H' { 'h' }
    else if c == 'I' { 'i' }
    else if c == 'J' { 'j' }
    else if c == 'K' { 'k' }
    else if c == 'L' { 'l' }
    else if c == 'M' { 'm' }
    else if c == 'N' { 'n' }
    else if c == 'O' { 'o' }
    else if c == 'P' { 'p' }
    else if c == 'Q' { 'q' }
    else if c == 'R' { 'r' }
    else if c == 'S' { 's' }
    else if c == 'T' { 't' }
    else if c == 'U' { 'u' }
    else if c == 'V' { 'v' }
    else if c == 'W' { 'w' }
    else if c == 'X' { 'x' }
    else if c == 'Y' { 'y' }
    else if c == 'Z' { 'z' }
    else { c }
}

/// The index of the first occurrence of `c` in `s`, if any.
fn find_char_in(s: &str, c: char) -> (r: Option<usize>)
    ensures
        r matches Some(i) ==> i < s@.len() && find_char(s@, c) == Some(i as int),
        r is None ==> find_char(s@, c) is None,
{
    let n = s.unicode_len();
    let mut i: usize = 0;
    while i < n
        invariant
            n == s@.len(),
            i <= n,
            forall|j: int| 0 <= j < i ==> s@[j] != c,
        decreases n - i,
    {
        if s.get_char(i) == c {
            proof {
                lemma_find_char_at(s@, c, i as int);
            }
            return Some(i);
        }
        i += 1;
    }
    proof {
        lemma_find_char_none(s@, c);
    }
    None
}

/// Whether every character of `s` is a permission character.
fn check_perm_chars(s: &str) -> (r: bool)
    ensures
        r == all_perm_chars(s@),
{
    let n = s.unicode_len();
    let mut i: usize = 0;
    while i < n
        invariant
            n == s@.len(),
            i <= n,
            forall|j: int| 0 <= j < i ==> is_perm_char(s@[j]),
        decreases n - i,
    {
        let c = s.get_char(i);
        if !(c == 'r' || c == 'w' || c == 'x') {
            assert(!is_perm_char(s@[i as int]));
            return false;
        }
        i += 1;
    }
    true
}

/// The views of a list of strings.
pub open spec fn seq_views(v: Seq<String>) -> Seq<Seq<char>> {
    v.map(|i: int, s: String| s@)
}

proof fn lemma_seq_views_push(v: Seq<String>, s: String)
    ensures
        seq_views(v.push(s)) =~= seq_views(v).push(s@),
{
}

/// Cuts `t` at every comma.
fn split_on_commas(t: &str) -> (r: Vec<String>)
    ensures
        seq_views(r@) == split_char(t@, ','),
{
    let n = t.unicode_len();
    let mut segs: Vec<String> = Vec::new();
    let mut start: usize = 0;
    let mut i: usize = 0;
    proof {
        assert(seq_views(segs@) =~= Seq::<Seq<char>>::empty());
        assert(t@.skip(0) =~= t@);
        assert(seq_views(segs@) + split_char(t@.skip(0), ',') =~= split_char(t@, ','));
    }
    while i < n
        invariant
            n == t@.len(),
            start <= i <= n,
            forall|j: int| start <= j < i ==> t@[j] != ',',
            split_char(t@, ',') == seq_views(segs@) + split_char(t@.skip(start as int), ','),
        decreases n - i,
    {
        if t.get_char(i) == ',' {
            let seg = t.substring_char(start, i).to_owned();
            proof {
                let u = t@.skip(start as int);
                assert(forall|j: int| 0 <= j < u.len() ==> u[j] == t@[j + start]);
                lemma_split_char_step(u, ',', i - start);
                assert(u.take(i - start) =~= t@.subrange(start as int, i as int));
                assert(u.skip(i - start + 1) =~= t@.skip(i + 1));
                lemma_seq_views_push(segs@, seg);
                assert(seq_views(segs@.push(seg)) + split_char(t@.skip(i + 1), ',')
                    =~= seq_views(segs@) + (seq![seg@] + split_char(t@.skip(i + 1), ',')));
            }
            segs.push(seg);
            start = i + 1;
        }
        i += 1;
    }
    let last = t.substring_char(start, n).to_owned();
    proof {
        let u = t@.skip(start as int);
        assert(forall|j: int| 0 <= j < u.len() ==> u[j] == t@[j + start]);
        lemma_split_char_whole(u, ',');
        assert(u =~= t@.subrange(start as int, n as int));
        lemma_seq_views_push(segs@, last);
        assert(seq_views(segs@.push(last)) =~= seq_views(segs@) + seq![last@]);
    }
    segs.push(last);
    segs
}

/// The flags of `m` with segment `g`'s grants added on top.
pub open spec fn seg_apply(m: Mode, g: Seq<char>) -> Mode {
    Mode {
        user_read: m.user_read || seg_grants(g, 'u', 'r'),
        user_write: m.user_write || seg_grants(g, 'u', 'w'),
        user_execute: m.user_execute || seg_grants(g, 'u', 'x'),
        group_read: m.group_read || seg_grants(g, 'g', 'r'),
        group_write: m.group_write || seg_grants(g, 'g', 'w'),
        group_execute: m.group_execute || seg_grants(g, 'g', 'x'),
        other_read: m.other_read || seg_grants(g, 'o', 'r'),
        other_write: m.other_write || seg_grants(g, 'o', 'w'),
        other_execute: m.other_execute || seg_grants(g, 'o', 'x'),
    }
}

/// Validates one segment and folds its grants into `m`; on an error `m`
/// is left as it was.
fn apply_segment(g: &str, m: &mut Mode) -> (r: Result<(), ModeError>)
    ensures
        match r {
            Ok(u) => seg_ok(g@) && *final(m) == seg_apply(*old(m), g@),
            Err(e) => !seg_ok(g@) && seg_error_matches(e, g@) && *final(m) == *old(m),
        },
{
    let eq_at = find_char_in(g, '=');
    match eq_at {
        None => Err(ModeError::MissingSeparator { segment: g.to_owned() }),
        Some(k) => {
            proof {
                lemma_find_char(g@, '=');
            }
            let n = g.unicode_len();
            let class = g.substring_char(0, k);
            let perms = g.substring_char(k + 1, n);
            proof {
                assert(class@ =~= g@.take(k as int));
                assert(perms@ =~= g@.skip(k + 1));
            }
            if !check_perm_chars(perms) {
                return Err(ModeError::InvalidPermissions { segment: g.to_owned() });
            }
            if perms.unicode_len() == 0 {
                proof {
                    assert(forall|c: char, p: char| !seg_grants(g@, c, p));
                    assert(*m == seg_apply(*m, g@));
                }
                return Ok(());
            }
            let class_ok = class.unicode_len() == 1 && {
                let c0 = class.get_char(0);
                c0 == 'u' || c0 == 'g' || c0 == 'o'
            };
            if !class_ok {
                return Err(
                    ModeError::UnknownClass { class: class.to_owned(), perm: perms.get_char(0) },
                );
            }
            let c0 = class.get_char(0);
            let hr = find_char_in(perms, 'r').is_some();
            let hw = find_char_in(perms, 'w').is_some();
            let hx = find_char_in(perms, 'x').is_some();
            proof {
                assert(hr == has_char(g@.skip(k + 1), 'r'));
                assert(hw == has_char(g@.skip(k + 1), 'w'));
                assert(hx == has_char(g@.skip(k + 1), 'x'));
                assert(g@.take(k as int) =~= seq![c0]);
                assert forall|c: char| c != c0 implies g@.take(k as int) != seq![c] by {
                    assert(g@.take(k as int)[0] == c0);
                    assert(seq![c][0] == c);
                }
            }
            if c0 == 'u' {
                m.user_read = m.user_read || hr;
                m.user_write = m.user_write || hw;
                m.user_execute = m.user_execute || hx;
            } else if c0 == 'g' {
                m.group_read = m.group_read || hr;
                m.group_write = m.group_write || hw;
                m.group_execute = m.group_execute || hx;
            } else {
                m.other_read = m.other_read || hr;
                m.other_write = m.other_write || hw;
                m.other_execute = m.other_execute || hx;
            }
            Ok(())
        },
    }
}

/// `symbolic_mode` of one more segment: the flags already accumulated,
/// with the new segment's grants added on top.
proof fn lemma_any_seg_grants_push(gs: Seq<Seq<char>>, n: int, c: char, p: char)
    requires
        0 <= n < gs.len(),
    ensures
        any_seg_grants(gs.take(n + 1), c, p) == (any_seg_grants(gs.take(n), c, p) || seg_grants(
            gs[n],
            c,
            p,
        )),
{
    let pre = gs.take(n);
    let cur = gs.take(n + 1);
    assert(cur =~= pre.push(gs[n]));
    if any_seg_grants(pre, c, p) {
        let i = choose|i: int| 0 <= i < pre.len() && seg_grants(pre[i], c, p);
        assert(seg_grants(cur[i], c, p));
    }
    if seg_grants(gs[n], c, p) {
        assert(seg_grants(cur[n], c, p));
    }
    if any_seg_grants(cur, c, p) {
        let i = choose|i: int| 0 <= i < cur.len() && seg_grants(cur[i], c, p);
        if i < n {
            assert(seg_grants(pre[i], c, p));
        }
    }
}

proof fn lemma_symbolic_mode_step(gs: Seq<Seq<char>>, n: int)
    requires
        0 <= n < gs.len(),
    ensures
        symbolic_mode(gs.take(n + 1)) == seg_apply(symbolic_mode(gs.take(n)), gs[n]),
{
    lemma_any_seg_grants_push(gs, n, 'u', 'r');
    lemma_any_seg_grants_push(gs, n, 'u', 'w');
    lemma_any_seg_grants_push(gs, n, 'u', 'x');
    lemma_any_seg_grants_push(gs, n, 'g', 'r');
    lemma_any_seg_grants_push(gs, n, 'g', 'w');
    lemma_any_seg_grants_push(gs, n, 'g', 'x');
    lemma_any_seg_grants_push(gs, n, 'o', 'r');
    lemma_any_seg_grants_push(gs, n, 'o', 'w');
    lemma_any_seg_grants_push(gs, n, 'o', 'x');
}

/// Parses a lowered expression under the comma-separated `class=perms`
/// grammar.
fn parse_symbolic(t: &str) -> (r: Result<Mode, ModeError>)
    ensures
        ({
            let gs = split_char(t@, ',');
            &&& (r matches Ok(m) ==> all_segs_ok(gs) && m == symbolic_mode(gs))
            &&& (r matches Err(e) ==> exists|i: int| first_bad_segment(gs, e, i))
        }),
{
    let ghost gs = split_char(t@, ',');
    let segs = split_on_commas(t);
    let mut m = Mode {
        user_read: false,
        user_write: false,
        user_execute: false,
        group_read: false,
        group_write: false,
        group_execute: false,
        other_read: false,
        other_write: false,
        other_execute: false,
    };
    let mut idx: usize = 0;
    let total = segs.len();
    proof {
        assert(gs.take(0) =~= Seq::<Seq<char>>::empty());
    }
    while idx < total
        invariant
            gs == split_char(t@, ','),
            total == segs.len(),
            idx <= total,
            seq_views(segs@) == gs,
            forall|j: int| 0 <= j < idx ==> seg_ok(gs[j]),
            m == symbolic_mode(gs.take(idx as int)),
        decreases total - idx,
    {
        let res = apply_segment(segs[idx].as_str(), &mut m);
        match res {
            Ok(u) => {
                proof {
                    lemma_symbolic_mode_step(gs, idx as int);
                }
            },
            Err(e) => {
                proof {
                    assert(first_bad_segment(gs, e, idx as int));
                }
                return Err(e);
            },
        }
        idx += 1;
    }
    proof {
        assert(gs.take(total as int) =~= gs);
    }
    Ok(m)
}

impl Mode {
    /// Parses a mode expression: the empty expression is rejected; an
    /// expression holding `=` is read as comma-separated `class=perms`
    /// segments whose grants accumulate; a bare expression grants its
    /// permissions to user, group and other alike. The expression is
    /// lower-cased first; the shorthand error carries it as given.
    pub fn from_str(s: &str) -> (r: Result<Mode, ModeError>)
        ensures
            ({
                let t = lower_view(s@);
                let gs = split_char(t, ',');
                &&& t.len() == 0 ==> (r matches Err(e) && e is Empty)
                &&& t.len() > 0 && has_char(t, '=') ==> match r {
                    Ok(m) => all_segs_ok(gs) && m == symbolic_mode(gs),
                    Err(e) => exists|i: int| first_bad_segment(gs, e, i),
                }
                &&& t.len() > 0 && !has_char(t, '=') ==> match r {
                    Ok(m) => all_perm_chars(t) && m == shorthand_mode(t),
                    Err(e) => !all_perm_chars(t) && (e matches ModeError::InvalidShorthand {
                        expression,
                    } && expression@ == s@),
                }
            }),
    {
        let lowered = lowercased(s);
        let t = lowered.as_str();
        if t.unicode_len() == 0 {
            return Err(ModeError::Empty);
        }
        if find_char_in(t, '=').is_some() {
            parse_symbolic(t)
        } else {
            if !check_perm_chars(t) {
                return Err(ModeError::InvalidShorthand { expression: s.to_owned() });
            }
            let hr = find_char_in(t, 'r').is_some();
            let hw = find_char_in(t, 'w').is_some();
            let hx = find_char_in(t, 'x').is_some();
            Ok(
                Mode {
                    user_read: hr,
                    user_write: hw,
                    user_execute: hx,
                    group_read: hr,
                    group_write: hw,
                    group_execute: hx,
                    other_read: hr,
                    other_write: hw,
                    other_execute: hx,
                },
            )
        }
    }
}

/// The platform permission value that `m` denotes: one bit per flag,
/// owner read `0o400` down to other execute `0o001`.
pub open spec fn spec_bits(m: Mode) -> u32 {
    ((if m.user_read { 0o400u32 } else { 0u32 }) + (if m.user_write { 0o200u32 } else { 0u32 })
        + (if m.user_execute { 0o100u32 } else { 0u32 })
        + (if m.group_read { 0o040u32 } else { 0u32 })
        + (if m.group_write { 0o020u32 } else { 0u32 })
        + (if m.group_execute { 0o010u32 } else { 0u32 })
        + (if m.other_read { 0o004u32 } else { 0u32 })
        + (if m.other_write { 0o002u32 } else { 0u32 })
        + (if m.other_execute { 0o001u32 } else { 0u32 })) as u32
}

/// The nine flags that a permission value holds.
pub open spec fn mode_of_bits(b: u32) -> Mode {
    Mode {
        user_read: b & 0o400u32 != 0,
        user_write: b & 0o200u32 != 0,
        user_execute: b & 0o100u32 != 0,
        group_read: b & 0o040u32 != 0,
        group_write: b & 0o020u32 != 0,
        group_execute: b & 0o010u32 != 0,
        other_read: b & 0o004u32 != 0,
        other_write: b & 0o002u32 != 0,
        other_execute: b & 0o001u32 != 0,
    }
}

proof fn lemma_disjoint_bit_sum(
    ur: u32,
    uw: u32,
    ux: u32,
    gr: u32,
    gw: u32,
    gx: u32,
    sr: u32,
    sw: u32,
    sx: u32,
)
    by (bit_vector)
    requires
        ur == 0 || ur == 0o400,
        uw == 0 || uw == 0o200,
        ux == 0 || ux == 0o100,
        gr == 0 || gr == 0o040,
        gw == 0 || gw == 0o020,
        gx == 0 || gx == 0o010,
        sr == 0 || sr == 0o004,
        sw == 0 || sw == 0o002,
        sx == 0 || sx == 0o001,
    ensures
        ({
            let b = ((((((((ur + uw) + ux) + gr) + gw) + gx) + sr) + sw) + sx) as u32;
            &&& (b & 0o400u32 != 0) == (ur != 0)
            &&& (b & 0o200u32 != 0) == (uw != 0)
            &&& (b & 0o100u32 != 0) == (ux != 0)
            &&& (b & 0o040u32 != 0) == (gr != 0)
            &&& (b & 0o020u32 != 0) == (gw != 0)
            &&& (b & 0o010u32 != 0) == (gx != 0)
            &&& (b & 0o004u32 != 0) == (sr != 0)
            &&& (b & 0o002u32 != 0) == (sw != 0)
            &&& (b & 0o001u32 != 0) == (sx != 0)
        }),
{
}

/// Round trip: reading the nine flags back out of the permission value
/// a mode was turned into gives that mode again; no flag is lost or
/// invented on the way to the filesystem.
pub proof fn lemma_bits_roundtrip(m: Mode)
    ensures
        mode_of_bits(spec_bits(m)) == m,
{
    lemma_disjoint_bit_sum(
        if m.user_read { 0o400u32 } else { 0u32 },
        if m.user_write { 0o200u32 } else { 0u32 },
        if m.user_execute { 0o100u32 } else { 0u32 },
        if m.group_read { 0o040u32 } else { 0u32 },
        if m.group_write { 0o020u32 } else { 0u32 },
        if m.group_execute { 0o010u32 } else { 0u32 },
        if m.other_read { 0o004u32 } else { 0u32 },
        if m.other_write { 0o002u32 } else { 0u32 },
        if m.other_execute { 0o001u32 } else { 0u32 },
    );
}

/// A bare expression treats the three classes alike: each class gets
/// exactly the permissions the expression names.
pub proof fn lemma_shorthand_uniform(t: Seq<char>)
    ensures
        shorthand_mode(t).user_read == has_char(t, 'r'),
        shorthand_mode(t).user_write == has_char(t, 'w'),
        shorthand_mode(t).user_execute == has_char(t, 'x'),
        shorthand_mode(t).group_read == shorthand_mode(t).user_read,
        shorthand_mode(t).group_write == shorthand_mode(t).user_write,
        shorthand_mode(t).group_execute == shorthand_mode(t).user_execute,
        shorthand_mode(t).other_read == shorthand_mode(t).user_read,
        shorthand_mode(t).other_write == shorthand_mode(t).user_write,
        shorthand_mode(t).other_execute == shorthand_mode(t).user_execute,
{
}

proof fn lemma_any_seg_grants_reorder(
    a: Seq<Seq<char>>,
    b: Seq<Seq<char>>,
    c: char,
    p: char,
)
    requires
        a.to_multiset() == b.to_multiset(),
        any_seg_grants(a, c, p),
    ensures
        any_seg_grants(b, c, p),
{
    broadcast use vstd::seq_lib::group_to_multiset_ensures;

    let i = choose|i: int| 0 <= i < a.len() && seg_grants(a[i], c, p);
    assert(a.contains(a[i]));
    assert(b.to_multiset().count(a[i]) > 0);
    assert(b.contains(a[i]));
    let j = choose|j: int| 0 <= j < b.len() && b[j] == a[i];
    assert(seg_grants(b[j], c, p));
}

/// Flag accumulation is order-independent: two segment lists that hold
/// the same segments, however ordered, denote the same mode.
pub proof fn lemma_symbolic_mode_order_independent(a: Seq<Seq<char>>, b: Seq<Seq<char>>)
    requires
        a.to_multiset() == b.to_multiset(),
    ensures
        symbolic_mode(a) == symbolic_mode(b),
{
    assert forall|c: char, p: char| any_seg_grants(a, c, p) == any_seg_grants(b, c, p) by {
        if any_seg_grants(a, c, p) {
            lemma_any_seg_grants_reorder(a, b, c, p);
        }
        if any_seg_grants(b, c, p) {
            lemma_any_seg_grants_reorder(b, a, c, p);
        }
    }
}

impl Mode {
    /// The platform permission value of this mode.
    #[verifier::rlimit(50)]
    pub fn bits(&self) -> (r: u32)
        ensures
            r == spec_bits(*self),
    {
        let mut bits: u32 = 0;
        if self.user_read {
            bits += 0o400;
        }
        if self.user_write {
            bits += 0o200;
        }
        if self.user_execute {
            bits += 0o100;
        }
        if self.group_read {
            bits += 0o040;
        }
        if self.group_write {
            bits += 0o020;
        }
        if self.group_execute {
            bits += 0o010;
        }
        if self.other_read {
            bits += 0o004;
        }
        if self.other_write {
            bits += 0o002;
        }
        if self.other_execute {
            bits += 0o001;
        }
        bits
    }
}

impl Default for Mode {
    /// Every flag starts out false; absence of a mode expression is
    /// represented by `Option::None`, not by this value.
    fn default() -> (r: Self)
        ensures
            r == spec_mode_empty(),
    {
        Mode {
            user_read: false,
            user_write: false,
            user_execute: false,
            group_read: false,
            group_write: false,
            group_execute: false,
            other_read: false,
            other_write: false,
            other_execute: false,
        }
    }
}

} // verus!
