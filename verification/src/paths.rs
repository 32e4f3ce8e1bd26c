//! Package entry paths: how a `/`-separated name breaks into components,
//! which names are safe to install, and file extensions.
use vstd::prelude::*;
use crate::text::{
    chars_of, push_char, string_of,
    chars_contain, chars_ends_with, chars_eq, ends_with, join_with, lemma_split_join,
    lemma_split_nonempty, lemma_split_pieces_free, lower, lower_chars, split_chars, split_on,
    starts_with,
};

verus! {

/// What one `/`-separated piece of a path contributes, as `Path::components` reads it on Unix.
#[derive(Debug, Clone, Copy, PartialEq, Eq, Structural)]
pub enum SegmentKind {
    /// An empty piece or an inner `.`: no component.
    Skip,
    /// The empty piece before a leading `/`.
    Root,
    /// A leading `.`.
    Cur,
    /// `..`.
    Parent,
    /// An ordinary name.
    Normal,
}

/// Why an entry name is refused.
#[derive(Debug, Clone, Copy, PartialEq, Eq, Structural)]
pub enum PathIssue {
    InvalidName,
    Backslash,
    Absolute,
    Drive,
    Traversal,
    Colon,
    TrailingSpaceOrDot,
    Reserved,
    EmptyPath,
    TooDeep,
}

/// The kind of the piece `seg`, found at position `i` of `count` pieces.
pub open spec fn kind_of(seg: Seq<char>, i: int, count: int) -> SegmentKind {
    if i == 0 && seg.len() == 0 && count > 1 {
        SegmentKind::Root
    } else if i == 0 && seg == seq!['.'] {
        SegmentKind::Cur
    } else if seg.len() == 0 || seg == seq!['.'] {
        SegmentKind::Skip
    } else if seg == seq!['.', '.'] {
        SegmentKind::Parent
    } else {
        SegmentKind::Normal
    }
}

/// The device names that Windows reserves, in lowercase.
pub open spec fn is_reserved_name(s: Seq<char>) -> bool {
    ||| s == seq!['c', 'o', 'n']
    ||| s == seq!['p', 'r', 'n']
    ||| s == seq!['a', 'u', 'x']
    ||| s == seq!['n', 'u', 'l']
    ||| (s.len() == 4 && ((s[0] == 'c' && s[1] == 'o' && s[2] == 'm') || (s[0] == 'l' && s[1] == 'p'
        && s[2] == 't')) && '1' <= s[3] <= '9')
}

/// The part of a name before its first dot.
pub open spec fn stem(p: Seq<char>) -> Seq<char> {
    split_on(p, '.')[0]
}

/// Why a single path name is refused, if it is.
pub open spec fn name_issue(p: Seq<char>) -> Option<PathIssue> {
    if p.contains(':') {
        Some(PathIssue::Colon)
    } else if ends_with(p, seq![' ']) || ends_with(p, seq!['.']) {
        Some(PathIssue::TrailingSpaceOrDot)
    } else if is_reserved_name(lower(stem(p))) {
        Some(PathIssue::Reserved)
    } else {
        None
    }
}

/// The names kept from the first `n` pieces, or the first refusal among them.
pub open spec fn scan_pieces(segs: Seq<Seq<char>>, n: int) -> Result<Seq<Seq<char>>, PathIssue>
    decreases n,
{
    if n <= 0 {
        Ok(Seq::<Seq<char>>::empty())
    } else {
        match scan_pieces(segs, n - 1) {
            Err(e) => Err(e),
            Ok(parts) => match kind_of(segs[n - 1], n - 1, segs.len() as int) {
                SegmentKind::Skip => Ok(parts),
                SegmentKind::Normal => match name_issue(segs[n - 1]) {
                    Some(e) => Err(e),
                    None => Ok(parts.push(segs[n - 1])),
                },
                _ => Err(PathIssue::Traversal),
            },
        }
    }
}

/// The components of a package entry name, or why it is refused.
pub open spec fn normalize_parts(raw: Seq<char>, max_depth: int) -> Result<Seq<Seq<char>>, PathIssue> {
    let segs = split_on(raw, '/');
    if raw.len() == 0 || raw.contains('\0') {
        Err(PathIssue::InvalidName)
    } else if raw.contains('\\') {
        Err(PathIssue::Backslash)
    } else if starts_with(raw, seq!['/']) {
        Err(PathIssue::Absolute)
    } else if segs[0].contains(':') {
        Err(PathIssue::Drive)
    } else {
        match scan_pieces(segs, segs.len() as int) {
            Err(e) => Err(e),
            Ok(parts) => if parts.len() == 0 {
                Err(PathIssue::EmptyPath)
            } else if parts.len() > max_depth {
                Err(PathIssue::TooDeep)
            } else {
                Ok(parts)
            },
        }
    }
}

/// The normalized form of an accepted entry name: its names joined with `/`.
pub open spec fn normalized_path(raw: Seq<char>, max_depth: int) -> Result<Seq<char>, PathIssue> {
    match normalize_parts(raw, max_depth) {
        Ok(parts) => Ok(join_with(parts, seq!['/'])),
        Err(e) => Err(e),
    }
}

/// A name that an accepted path may hold.
pub open spec fn is_safe_name(p: Seq<char>) -> bool {
    &&& p.len() > 0
    &&& p != seq!['.'] && p != seq!['.', '.']
    &&& !p.contains('/') && !p.contains('\\') && !p.contains('\0') && !p.contains(':')
    &&& !ends_with(p, seq![' ']) && !ends_with(p, seq!['.'])
    &&& !is_reserved_name(lower(stem(p)))
}

fn segment_kind(seg: &[char], i: usize, count: usize) -> (k: SegmentKind)
    ensures
        k == kind_of(seg@, i as int, count as int),
{
    let dot = seg.len() == 1 && seg[0] == '.';
    proof {
        if dot {
            assert(seg@ =~= seq!['.']);
        }
        if seg@ == seq!['.'] {
            assert(seg@[0] == '.');
        }
    }
    if i == 0 && seg.len() == 0 && count > 1 {
        SegmentKind::Root
    } else if i == 0 && dot {
        SegmentKind::Cur
    } else if seg.len() == 0 || dot {
        SegmentKind::Skip
    } else if seg.len() == 2 && seg[0] == '.' && seg[1] == '.' {
        assert(seg@ =~= seq!['.', '.']);
        SegmentKind::Parent
    } else {
        proof {
            if seg@ == seq!['.', '.'] {
                assert(seg@[0] == '.' && seg@[1] == '.');
            }
        }
        SegmentKind::Normal
    }
}

fn reserved_name(s: &[char]) -> (r: bool)
    ensures
        r == is_reserved_name(s@),
{
    if s.len() == 3 {
        let r = (s[0] == 'c' && s[1] == 'o' && s[2] == 'n') || (s[0] == 'p' && s[1] == 'r' && s[2]
            == 'n') || (s[0] == 'a' && s[1] == 'u' && s[2] == 'x') || (s[0] == 'n' && s[1] == 'u'
            && s[2] == 'l');
        proof {
            if s@ == seq!['c', 'o', 'n'] || s@ == seq!['p', 'r', 'n'] || s@ == seq!['a', 'u', 'x']
                || s@ == seq!['n', 'u', 'l'] {
                assert(s@[0] == s@[0] && s@[1] == s@[1] && s@[2] == s@[2]);
            }
            if s[0] == 'c' && s[1] == 'o' && s[2] == 'n' {
                assert(s@ =~= seq!['c', 'o', 'n']);
            }
            if s[0] == 'p' && s[1] == 'r' && s[2] == 'n' {
                assert(s@ =~= seq!['p', 'r', 'n']);
            }
            if s[0] == 'a' && s[1] == 'u' && s[2] == 'x' {
                assert(s@ =~= seq!['a', 'u', 'x']);
            }
            if s[0] == 'n' && s[1] == 'u' && s[2] == 'l' {
                assert(s@ =~= seq!['n', 'u', 'l']);
            }
        }
        r
    } else if s.len() == 4 {
        ((s[0] == 'c' && s[1] == 'o' && s[2] == 'm') || (s[0] == 'l' && s[1] == 'p' && s[2] == 't'))
            && '1' <= s[3] && s[3] <= '9'
    } else {
        false
    }
}

/// Why a single name is refused, if it is.
pub fn name_issue_of(p: &[char]) -> (r: Option<PathIssue>)
    ensures
        r == name_issue(p@),
{
    if chars_contain(p, ':') {
        return Some(PathIssue::Colon);
    }
    let ends_space = chars_ends_with(p, &[' ']);
    let ends_dot = chars_ends_with(p, &['.']);
    proof {
        assert(seq![' '] =~= (&[' '])@) by {
            let a: &[char] = &[' '];
            assert(a@.len() == 1 && a@[0] == ' ');
        }
        assert(seq!['.'] =~= (&['.'])@) by {
            let a: &[char] = &['.'];
            assert(a@.len() == 1 && a@[0] == '.');
        }
    }
    if ends_space || ends_dot {
        return Some(PathIssue::TrailingSpaceOrDot);
    }
    let pieces = split_chars(p, '.');
    proof {
        lemma_split_nonempty(p@, '.');
    }
    assert(pieces@.map_values(|v: Vec<char>| v@)[0] == pieces@[0]@);
    let lowered = lower_chars(pieces[0].as_slice());
    if reserved_name(lowered.as_slice()) {
        return Some(PathIssue::Reserved);
    }
    None
}

fn copy_chars(v: &[char]) -> (r: Vec<char>)
    ensures
        r@ == v@,
{
    let mut r: Vec<char> = Vec::new();
    let mut i: usize = 0;
    while i < v.len()
        invariant
            0 <= i <= v.len(),
            r@ == v@.take(i as int),
        decreases v.len() - i,
    {
        r.push(v[i]);
        i = i + 1;
        assert(v@.take(i as int) =~= v@.take((i - 1) as int).push(v@[i - 1]));
    }
    assert(v@.take(v.len() as int) =~= v@);
    r
}

/// The names of an entry path in order, or why the path is refused.
pub fn normalize_path_parts(raw: &[char], max_depth: usize) -> (r: Result<Vec<Vec<char>>, PathIssue>)
    ensures
        match normalize_parts(raw@, max_depth as int) {
            Ok(parts) => r is Ok && r->Ok_0@.map_values(|v: Vec<char>| v@) == parts,
            Err(e) => r == Err::<Vec<Vec<char>>, PathIssue>(e),
        },
{
    let segs = split_chars(raw, '/');
    let ghost sv = segs@.map_values(|v: Vec<char>| v@);
    proof {
        lemma_split_nonempty(raw@, '/');
    }
    if raw.len() == 0 || chars_contain(raw, '\0') {
        return Err(PathIssue::InvalidName);
    }
    if chars_contain(raw, '\\') {
        return Err(PathIssue::Backslash);
    }
    if raw[0] == '/' {
        assert(raw@.subrange(0, 1) =~= seq!['/']);
        return Err(PathIssue::Absolute);
    }
    assert(!starts_with(raw@, seq!['/'])) by {
        if starts_with(raw@, seq!['/']) {
            assert(raw@.subrange(0, 1)[0] == raw@[0]);
        }
    }
    assert(sv[0] == segs@[0]@);
    if chars_contain(segs[0].as_slice(), ':') {
        return Err(PathIssue::Drive);
    }
    let mut parts: Vec<Vec<char>> = Vec::new();
    let mut i: usize = 0;
    assert(parts@.map_values(|v: Vec<char>| v@) =~= Seq::<Seq<char>>::empty());
    while i < segs.len()
        invariant
            0 <= i <= segs.len(),
            sv == segs@.map_values(|v: Vec<char>| v@),
            sv == split_on(raw@, '/'),
            sv.len() == segs.len(),
            raw@.len() > 0,
            !raw@.contains('\0'),
            !raw@.contains('\\'),
            !starts_with(raw@, seq!['/']),
            !sv[0].contains(':'),
            scan_pieces(sv, i as int) == Ok::<Seq<Seq<char>>, PathIssue>(parts@.map_values(|v: Vec<char>| v@)),
        decreases segs.len() - i,
    {
        assert(sv[i as int] == segs@[i as int]@);
        let k = segment_kind(segs[i].as_slice(), i, segs.len());
        match k {
            SegmentKind::Skip => {},
            SegmentKind::Normal => {
                match name_issue_of(segs[i].as_slice()) {
                    Some(e) => {
                        proof { lemma_scan_err_persists(sv, (i + 1) as int, sv.len() as int); }
                        return Err(e);
                    },
                    None => {
                        let ghost before = parts@.map_values(|v: Vec<char>| v@);
                        parts.push(copy_chars(segs[i].as_slice()));
                        assert(parts@.map_values(|v: Vec<char>| v@) =~= before.push(sv[i as int]));
                    },
                }
            },
            _ => {
                proof { lemma_scan_err_persists(sv, (i + 1) as int, sv.len() as int); }
                return Err(PathIssue::Traversal);
            },
        }
        i = i + 1;
    }
    if parts.len() == 0 {
        return Err(PathIssue::EmptyPath);
    }
    if parts.len() > max_depth {
        return Err(PathIssue::TooDeep);
    }
    Ok(parts)
}

/// A refusal among the first `n` pieces is the refusal of any longer prefix.
proof fn lemma_scan_err_persists(segs: Seq<Seq<char>>, n: int, m: int)
    requires
        0 <= n <= m,
        scan_pieces(segs, n) is Err,
    ensures
        scan_pieces(segs, m) == scan_pieces(segs, n),
    decreases m - n,
{
    if m > n {
        lemma_scan_err_persists(segs, n, m - 1);
    }
}

// ---------------------------------------------------------------------------
// What an accepted path is like
// ---------------------------------------------------------------------------

proof fn lemma_split_chars_from(s: Seq<char>, sep: char)
    ensures
        forall|i: int, k: int|
            0 <= i < split_on(s, sep).len() && 0 <= k < split_on(s, sep)[i].len() ==> s.contains(
                #[trigger] split_on(s, sep)[i][k],
            ),
    decreases s.len(),
{
    if s.len() > 0 {
        let prev = split_on(s.drop_last(), sep);
        lemma_split_chars_from(s.drop_last(), sep);
        lemma_split_nonempty(s.drop_last(), sep);
        assert forall|i: int, k: int|
            0 <= i < split_on(s, sep).len() && 0 <= k < split_on(s, sep)[i].len() implies s.contains(
                #[trigger] split_on(s, sep)[i][k],
            ) by {
            let c = split_on(s, sep)[i][k];
            if s.last() != sep && i == prev.len() - 1 && k == prev.last().len() {
                assert(c == s.last());
                assert(s[s.len() - 1] == c);
            } else {
                if s.last() != sep && i == prev.len() - 1 {
                    assert(c == prev[i][k]);
                } else {
                    assert(split_on(s, sep)[i] == prev[i]);
                }
                assert(s.drop_last().contains(c));
                let j = choose|j: int| 0 <= j < s.drop_last().len() && s.drop_last()[j] == c;
                assert(s[j] == c);
            }
        }
    }
}

proof fn lemma_scan_kept(segs: Seq<Seq<char>>, n: int)
    requires
        0 <= n <= segs.len(),
        scan_pieces(segs, n) is Ok,
    ensures
        forall|j: int|
            0 <= j < scan_pieces(segs, n)->Ok_0.len() ==> {
                let p = #[trigger] scan_pieces(segs, n)->Ok_0[j];
                &&& exists|i: int| 0 <= i < n && segs[i] == p && kind_of(segs[i], i, segs.len() as int) == SegmentKind::Normal
                &&& name_issue(p) is None
            },
    decreases n,
{
    if n > 0 {
        lemma_scan_kept(segs, n - 1);
        let prev = scan_pieces(segs, n - 1)->Ok_0;
        assert forall|j: int| 0 <= j < scan_pieces(segs, n)->Ok_0.len() implies {
            let p = #[trigger] scan_pieces(segs, n)->Ok_0[j];
            &&& exists|i: int| 0 <= i < n && segs[i] == p && kind_of(segs[i], i, segs.len() as int) == SegmentKind::Normal
            &&& name_issue(p) is None
        } by {
            let p = scan_pieces(segs, n)->Ok_0[j];
            if j < prev.len() {
                assert(p == prev[j]);
                let i = choose|i: int| 0 <= i < n - 1 && segs[i] == p && kind_of(segs[i], i, segs.len() as int) == SegmentKind::Normal;
                assert(0 <= i < n);
            } else {
                assert(p == segs[n - 1]);
            }
        }
    }
}

/// Every name of an accepted path is safe, and there are between one and `max_depth` of them.
pub proof fn lemma_normalized_parts_safe(raw: Seq<char>, max_depth: int)
    requires
        normalize_parts(raw, max_depth) is Ok,
    ensures
        ({
            let parts = normalize_parts(raw, max_depth)->Ok_0;
            &&& 1 <= parts.len() <= max_depth
            &&& forall|j: int| 0 <= j < parts.len() ==> is_safe_name(#[trigger] parts[j])
        }),
{
    let segs = split_on(raw, '/');
    let parts = normalize_parts(raw, max_depth)->Ok_0;
    lemma_split_nonempty(raw, '/');
    lemma_scan_kept(segs, segs.len() as int);
    lemma_split_pieces_free(raw, '/');
    lemma_split_chars_from(raw, '/');
    assert forall|j: int| 0 <= j < parts.len() implies is_safe_name(#[trigger] parts[j]) by {
        let p = parts[j];
        let i = choose|i: int| 0 <= i < segs.len() && segs[i] == p && kind_of(segs[i], i, segs.len() as int) == SegmentKind::Normal;
        assert(!segs[i].contains('/'));
        assert(!p.contains('\\')) by {
            if p.contains('\\') {
                let k = choose|k: int| 0 <= k < p.len() && p[k] == '\\';
                assert(raw.contains(segs[i][k]));
            }
        }
        assert(!p.contains('\0')) by {
            if p.contains('\0') {
                let k = choose|k: int| 0 <= k < p.len() && p[k] == '\0';
                assert(raw.contains(segs[i][k]));
            }
        }
    }
}

// ---------------------------------------------------------------------------
// Normalization is idempotent
// ---------------------------------------------------------------------------

proof fn lemma_join_chars(parts: Seq<Seq<char>>, c: char)
    requires
        c != '/',
        forall|j: int| 0 <= j < parts.len() ==> !(#[trigger] parts[j]).contains(c),
    ensures
        !join_with(parts, seq!['/']).contains(c),
    decreases parts.len(),
{
    if parts.len() > 1 {
        let init = parts.drop_last();
        assert forall|j: int| 0 <= j < init.len() implies !(#[trigger] init[j]).contains(c) by {
            assert(init[j] == parts[j]);
        }
        lemma_join_chars(init, c);
        let a = join_with(init, seq!['/']);
        let b = parts.last();
        assert(!b.contains(c)) by {
            assert(parts[parts.len() - 1] == b);
        }
        let x = a + seq!['/'] + b;
        if x.contains(c) {
            let k = choose|k: int| 0 <= k < x.len() && x[k] == c;
            if k < a.len() {
                assert(a[k] == c);
            } else if k > a.len() {
                assert(b[k - a.len() - 1] == c);
            }
        }
    } else if parts.len() == 1 {
        assert(!parts[0].contains(c));
    }
}

proof fn lemma_join_first(parts: Seq<Seq<char>>)
    requires
        parts.len() >= 1,
        parts[0].len() >= 1,
    ensures
        join_with(parts, seq!['/']).len() >= 1,
        join_with(parts, seq!['/'])[0] == parts[0][0],
    decreases parts.len(),
{
    if parts.len() > 1 {
        lemma_join_first(parts.drop_last());
    }
}

proof fn lemma_scan_all_normal(parts: Seq<Seq<char>>, n: int)
    requires
        0 <= n <= parts.len(),
        forall|j: int| 0 <= j < parts.len() ==> is_safe_name(#[trigger] parts[j]),
    ensures
        scan_pieces(parts, n) == Ok::<Seq<Seq<char>>, PathIssue>(parts.take(n)),
    decreases n,
{
    if n > 0 {
        lemma_scan_all_normal(parts, n - 1);
        let p = parts[n - 1];
        assert(is_safe_name(p));
        assert(kind_of(p, n - 1, parts.len() as int) == SegmentKind::Normal);
        assert(name_issue(p) is None) by {
            assert(!p.contains(':'));
        }
        assert(parts.take(n - 1).push(p) =~= parts.take(n));
    } else {
        assert(parts.take(0) =~= Seq::<Seq<char>>::empty());
    }
}

/// Normalizing an already normalized path gives it back unchanged.
pub proof fn lemma_normalize_idempotent(raw: Seq<char>, max_depth: int)
    requires
        normalize_parts(raw, max_depth) is Ok,
    ensures
        normalize_parts(join_with(normalize_parts(raw, max_depth)->Ok_0, seq!['/']), max_depth)
            == normalize_parts(raw, max_depth),
{
    let parts = normalize_parts(raw, max_depth)->Ok_0;
    lemma_normalized_parts_safe(raw, max_depth);
    let joined = join_with(parts, seq!['/']);
    assert forall|j: int| 0 <= j < parts.len() implies !(#[trigger] parts[j]).contains('/') by {
        assert(is_safe_name(parts[j]));
    }
    lemma_split_join(parts, '/');
    lemma_join_chars(parts, '\0');
    lemma_join_chars(parts, '\\');
    lemma_join_first(parts);
    assert(is_safe_name(parts[0]));
    assert(parts[0][0] != '/') by {
        assert(!parts[0].contains('/'));
        assert(parts[0].contains(parts[0][0]));
    }
    assert(!starts_with(joined, seq!['/'])) by {
        if starts_with(joined, seq!['/']) {
            assert(joined.subrange(0, 1)[0] == joined[0]);
        }
    }
    lemma_scan_all_normal(parts, parts.len() as int);
    assert(parts.take(parts.len() as int) =~= parts);
}

/// Every name of a normalized path is safe.
pub proof fn lemma_normalized_path_safe(raw: Seq<char>, max_depth: int)
    requires
        normalize_parts(raw, max_depth) is Ok,
    ensures
        ({
            let p = join_with(normalize_parts(raw, max_depth)->Ok_0, seq!['/']);
            let names = split_on(p, '/');
            &&& 1 <= names.len() <= max_depth
            &&& forall|j: int| 0 <= j < names.len() ==> is_safe_name(#[trigger] names[j])
            &&& !p.contains('\\') && !p.contains('\0') && !p.contains(':')
            &&& !starts_with(p, seq!['/'])
        }),
{
    let parts = normalize_parts(raw, max_depth)->Ok_0;
    lemma_normalized_parts_safe(raw, max_depth);
    lemma_normalize_idempotent(raw, max_depth);
    assert forall|j: int| 0 <= j < parts.len() implies !(#[trigger] parts[j]).contains('/') by {
        assert(is_safe_name(parts[j]));
    }
    lemma_split_join(parts, '/');
    lemma_join_chars(parts, '\0');
    lemma_join_chars(parts, '\\');
    lemma_join_chars(parts, ':');
}

// ---------------------------------------------------------------------------
// File names and extensions
// ---------------------------------------------------------------------------

/// The index of the last piece among the first `n` that yields a component.
pub open spec fn last_component(segs: Seq<Seq<char>>, n: int) -> Option<int>
    decreases n,
{
    if n <= 0 {
        None
    } else if kind_of(segs[n - 1], n - 1, segs.len() as int) != SegmentKind::Skip {
        Some(n - 1)
    } else {
        last_component(segs, n - 1)
    }
}

/// `Path::file_name`: the last component, when it is an ordinary name.
pub open spec fn file_name(path: Seq<char>) -> Option<Seq<char>> {
    let segs = split_on(path, '/');
    match last_component(segs, segs.len() as int) {
        Some(i) => if kind_of(segs[i], i, segs.len() as int) == SegmentKind::Normal {
            Some(segs[i])
        } else {
            None
        },
        None => None,
    }
}

/// The index of the last occurrence of `c` among the first `n` characters.
pub open spec fn last_index_of(s: Seq<char>, c: char, n: int) -> Option<int>
    decreases n,
{
    if n <= 0 {
        None
    } else if s[n - 1] == c {
        Some(n - 1)
    } else {
        last_index_of(s, c, n - 1)
    }
}

/// `Path::extension` of a file name: what follows its last dot, unless that dot is its first character.
pub open spec fn name_extension(name: Seq<char>) -> Option<Seq<char>> {
    match last_index_of(name, '.', name.len() as int) {
        Some(i) => if i > 0 {
            Some(name.subrange(i + 1, name.len() as int))
        } else {
            None
        },
        None => None,
    }
}

/// `Path::extension`.
pub open spec fn path_extension(path: Seq<char>) -> Option<Seq<char>> {
    match file_name(path) {
        Some(name) => name_extension(name),
        None => None,
    }
}

/// The extension of a path as `Path::extension` finds it.
pub fn extension_chars(path: &[char]) -> (r: Option<Vec<char>>)
    ensures
        match path_extension(path@) {
            Some(e) => r is Some && r->Some_0@ == e,
            None => r is None,
        },
{
    let segs = split_chars(path, '/');
    let ghost sv = segs@.map_values(|v: Vec<char>| v@);
    let mut n: usize = segs.len();
    while n > 0 && segment_kind(segs[n - 1].as_slice(), n - 1, segs.len()) == SegmentKind::Skip
        invariant
            0 <= n <= segs.len(),
            sv == segs@.map_values(|v: Vec<char>| v@),
            last_component(sv, n as int) == last_component(sv, sv.len() as int),
        decreases n,
    {
        assert(sv[n - 1] == segs@[n - 1]@);
        n = n - 1;
    }
    if n == 0 {
        return None;
    }
    assert(sv[n - 1] == segs@[n - 1]@);
    let name = &segs[n - 1];
    if segment_kind(name.as_slice(), n - 1, segs.len()) != SegmentKind::Normal {
        return None;
    }
    let mut k: usize = name.len();
    while k > 0 && name[k - 1] != '.'
        invariant
            0 <= k <= name@.len(),
            last_index_of(name@, '.', k as int) == last_index_of(name@, '.', name@.len() as int),
        decreases k,
    {
        k = k - 1;
    }
    if k <= 1 {
        return None;
    }
    let mut e: Vec<char> = Vec::new();
    let mut j: usize = k;
    while j < name.len()
        invariant
            k <= j <= name@.len(),
            e@ == name@.subrange(k as int, j as int),
        decreases name@.len() - j,
    {
        e.push(name[j]);
        j = j + 1;
        assert(name@.subrange(k as int, j as int) =~= name@.subrange(k as int, j - 1).push(name@[j - 1]));
    }
    Some(e)
}

/// Whether a path is a `.res` file directly inside the `maps` folder.
pub open spec fn is_map_res(path: Seq<char>) -> bool {
    let segs = split_on(path, '/');
    segs.len() == 2 && segs[0] == seq!['m', 'a', 'p', 's'] && ends_with(lower(segs[1]), seq!['.', 'r', 'e', 's'])
}

pub fn is_map_res_chars(path: &[char]) -> (r: bool)
    ensures
        r == is_map_res(path@),
{
    let segs = split_chars(path, '/');
    let ghost sv = segs@.map_values(|v: Vec<char>| v@);
    if segs.len() != 2 {
        return false;
    }
    assert(sv[0] == segs@[0]@ && sv[1] == segs@[1]@);
    let maps = ['m', 'a', 'p', 's'];
    let res = ['.', 'r', 'e', 's'];
    assert(maps@ =~= seq!['m', 'a', 'p', 's']);
    assert(res@ =~= seq!['.', 'r', 'e', 's']);
    if !chars_eq(segs[0].as_slice(), maps.as_slice()) {
        return false;
    }
    let l = lower_chars(segs[1].as_slice());
    chars_ends_with(l.as_slice(), res.as_slice())
}


// ---------------------------------------------------------------------------
// Components, joining and display of file-system paths
// ---------------------------------------------------------------------------

/// The components of the first `n` pieces, each with its kind and text.
pub open spec fn comps_upto(segs: Seq<Seq<char>>, n: int) -> Seq<(SegmentKind, Seq<char>)>
    decreases n,
{
    if n <= 0 {
        Seq::<(SegmentKind, Seq<char>)>::empty()
    } else {
        let prev = comps_upto(segs, n - 1);
        let k = kind_of(segs[n - 1], n - 1, segs.len() as int);
        if k == SegmentKind::Skip {
            prev
        } else {
            prev.push((k, segs[n - 1]))
        }
    }
}

/// `Path::components` of a `/`-separated path.
pub open spec fn components(s: Seq<char>) -> Seq<(SegmentKind, Seq<char>)> {
    let segs = split_on(s, '/');
    comps_upto(segs, segs.len() as int)
}

/// The text of one component (`Component::as_os_str`).
pub open spec fn comp_text(c: (SegmentKind, Seq<char>)) -> Seq<char> {
    match c.0 {
        SegmentKind::Root => seq!['/'],
        SegmentKind::Cur => seq!['.'],
        SegmentKind::Parent => seq!['.', '.'],
        _ => c.1,
    }
}

/// The components' texts joined with `/`.
pub open spec fn comps_display(c: Seq<(SegmentKind, Seq<char>)>) -> Seq<char> {
    join_with(c.map_values(|x: (SegmentKind, Seq<char>)| comp_text(x)), seq!['/'])
}

/// One component of a path, with its kind and text.
#[derive(Debug)]
pub struct PathComponent {
    pub kind: SegmentKind,
    pub text: Vec<char>,
}

impl View for PathComponent {
    type V = (SegmentKind, Seq<char>);

    open spec fn view(&self) -> (SegmentKind, Seq<char>) {
        (self.kind, self.text@)
    }
}

/// The components of a path.
pub fn path_components(s: &[char]) -> (r: Vec<PathComponent>)
    ensures
        r@.map_values(|c: PathComponent| c@) == components(s@),
{
    let segs = split_chars(s, '/');
    let ghost sv = segs@.map_values(|v: Vec<char>| v@);
    let mut r: Vec<PathComponent> = Vec::new();
    let mut i: usize = 0;
    assert(r@.map_values(|c: PathComponent| c@) =~= Seq::<(SegmentKind, Seq<char>)>::empty());
    while i < segs.len()
        invariant
            0 <= i <= segs.len(),
            sv == segs@.map_values(|v: Vec<char>| v@),
            sv.len() == segs.len(),
            r@.map_values(|c: PathComponent| c@) == comps_upto(sv, i as int),
        decreases segs.len() - i,
    {
        assert(sv[i as int] == segs@[i as int]@);
        let k = segment_kind(segs[i].as_slice(), i, segs.len());
        if k != SegmentKind::Skip {
            let ghost before = r@.map_values(|c: PathComponent| c@);
            r.push(PathComponent { kind: k, text: copy_chars(segs[i].as_slice()) });
            assert(r@.map_values(|c: PathComponent| c@) =~= before.push((k, sv[i as int])));
        }
        i = i + 1;
    }
    r
}

pub fn comp_text_of(c: &PathComponent) -> (r: Vec<char>)
    ensures
        r@ == comp_text(c@),
{
    match c.kind {
        SegmentKind::Root => {
            let mut v: Vec<char> = Vec::new();
            v.push('/');
            assert(v@ =~= seq!['/']);
            v
        },
        SegmentKind::Cur => {
            let mut v: Vec<char> = Vec::new();
            v.push('.');
            assert(v@ =~= seq!['.']);
            v
        },
        SegmentKind::Parent => {
            let mut v: Vec<char> = Vec::new();
            v.push('.');
            v.push('.');
            assert(v@ =~= seq!['.', '.']);
            v
        },
        _ => copy_chars(c.text.as_slice()),
    }
}

/// The texts of components `from..` joined with `/`.
pub fn display_components(c: &Vec<PathComponent>, from: usize) -> (r: String)
    requires
        from <= c@.len(),
    ensures
        r@ == comps_display(c@.map_values(|x: PathComponent| x@).skip(from as int)),
{
    let ghost cv = c@.map_values(|x: PathComponent| x@);
    let mut texts: Vec<Vec<char>> = Vec::new();
    let mut i: usize = from;
    while i < c.len()
        invariant
            from <= i <= c@.len(),
            cv == c@.map_values(|x: PathComponent| x@),
            texts@.map_values(|v: Vec<char>| v@) == cv.subrange(from as int, i as int).map_values(|x: (SegmentKind, Seq<char>)| comp_text(x)),
        decreases c@.len() - i,
    {
        let ghost before = texts@.map_values(|v: Vec<char>| v@);
        assert(cv[i as int] == c@[i as int]@);
        texts.push(comp_text_of(&c[i]));
        assert(cv.subrange(from as int, i + 1) =~= cv.subrange(from as int, i as int).push(cv[i as int]));
        assert(texts@.map_values(|v: Vec<char>| v@) =~= before.push(comp_text(cv[i as int])));
        assert(texts@.map_values(|v: Vec<char>| v@) =~= cv.subrange(from as int, i + 1).map_values(|x: (SegmentKind, Seq<char>)| comp_text(x)));
        i = i + 1;
    }
    assert(cv.subrange(from as int, cv.len() as int) =~= cv.skip(from as int));
    let joined = crate::text::join_chars(&texts, '/');
    string_of(joined.as_slice())
}

/// A path shown as its components joined with `/` (`display_path`).
pub open spec fn display_of(s: Seq<char>) -> Seq<char> {
    comps_display(components(s))
}

pub fn display_path(relative: &str) -> (r: String)
    ensures
        r@ == display_of(relative@),
{
    let v = chars_of(relative);
    let c = path_components(v.as_slice());
    assert(c@.map_values(|x: PathComponent| x@).skip(0) =~= components(relative@));
    display_components(&c, 0)
}

/// `PathBuf::push` on Unix: an absolute `rel` replaces the base; otherwise a
/// separator is put between them unless the base is empty or ends with one.
pub open spec fn join_path(base: Seq<char>, rel: Seq<char>) -> Seq<char> {
    if rel.len() > 0 && rel[0] == '/' {
        rel
    } else if base.len() == 0 || base.last() == '/' {
        base + rel
    } else {
        base + seq!['/'] + rel
    }
}

pub fn join_paths(base: &str, rel: &str) -> (r: String)
    ensures
        r@ == join_path(base@, rel@),
{
    let b = chars_of(base);
    let rv = chars_of(rel);
    if rv.len() > 0 && rv[0] == '/' {
        return String::from_str(rel);
    }
    let mut r = String::from_str(base);
    if !(b.len() == 0 || b[b.len() - 1] == '/') {
        push_char(&mut r, '/');
    }
    r.append(rel);
    proof {
        if b@.len() > 0 {
            assert(b@.last() == b@[b@.len() - 1]);
        }
    }
    r
}

/// `path.split('/').collect::<PathBuf>()`: the pieces pushed one after another.
pub open spec fn posix_upto(pieces: Seq<Seq<char>>, n: int) -> Seq<char>
    decreases n,
{
    if n <= 0 {
        Seq::<char>::empty()
    } else {
        join_path(posix_upto(pieces, n - 1), pieces[n - 1])
    }
}

pub open spec fn posix_path(s: Seq<char>) -> Seq<char> {
    let pieces = split_on(s, '/');
    posix_upto(pieces, pieces.len() as int)
}

/// The file-system path of a `/`-separated relative path.
pub fn path_from_posix(path: &str) -> (r: String)
    ensures
        r@ == posix_path(path@),
{
    let v = chars_of(path);
    let pieces = split_chars(v.as_slice(), '/');
    let ghost pv = pieces@.map_values(|x: Vec<char>| x@);
    let mut r = String::new();
    let mut i: usize = 0;
    while i < pieces.len()
        invariant
            0 <= i <= pieces.len(),
            pv == pieces@.map_values(|x: Vec<char>| x@),
            pv.len() == pieces.len(),
            r@ == posix_upto(pv, i as int),
        decreases pieces.len() - i,
    {
        assert(pv[i as int] == pieces@[i as int]@);
        let piece = string_of(pieces[i].as_slice());
        r = join_paths(r.as_str(), piece.as_str());
        i = i + 1;
    }
    r
}

/// `Path::strip_prefix`: what remains of the path's components after the base's, when they lead it.
pub open spec fn strip_components(path: Seq<char>, base: Seq<char>) -> Option<Seq<(SegmentKind, Seq<char>)>> {
    let p = components(path);
    let b = components(base);
    if b.len() <= p.len() && p.take(b.len() as int) == b {
        Some(p.skip(b.len() as int))
    } else {
        None
    }
}

fn comps_prefix(p: &Vec<PathComponent>, b: &Vec<PathComponent>) -> (r: bool)
    ensures
        r == (b@.len() <= p@.len() && p@.map_values(|x: PathComponent| x@).take(b@.len() as int) == b@.map_values(|x: PathComponent| x@)),
{
    let ghost pv = p@.map_values(|x: PathComponent| x@);
    let ghost bv = b@.map_values(|x: PathComponent| x@);
    if b.len() > p.len() {
        return false;
    }
    let mut i: usize = 0;
    while i < b.len()
        invariant
            0 <= i <= b@.len(),
            b@.len() <= p@.len(),
            pv == p@.map_values(|x: PathComponent| x@),
            bv == b@.map_values(|x: PathComponent| x@),
            forall|j: int| 0 <= j < i ==> pv[j] == bv[j],
        decreases b@.len() - i,
    {
        assert(pv[i as int] == p@[i as int]@ && bv[i as int] == b@[i as int]@);
        if p[i].kind != b[i].kind || !crate::text::chars_eq(p[i].text.as_slice(), b[i].text.as_slice()) {
            assert(pv.take(b@.len() as int)[i as int] == pv[i as int]);
            return false;
        }
        i = i + 1;
    }
    assert(pv.take(b@.len() as int) =~= bv);
    true
}

/// The display form of what remains of `path` after `base`, if `base` leads it.
pub fn strip_prefix_display(path: &str, base: &str) -> (r: Option<String>)
    ensures
        match strip_components(path@, base@) {
            Some(rest) => r matches Some(s) && s@ == comps_display(rest),
            None => r is None,
        },
{
    let pv = chars_of(path);
    let bv = chars_of(base);
    let p = path_components(pv.as_slice());
    let b = path_components(bv.as_slice());
    if comps_prefix(&p, &b) {
        Some(display_components(&p, b.len()))
    } else {
        None
    }
}

} // verus!
