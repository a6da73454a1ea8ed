//! Verified text utilities: case-insensitive matching, trimming, splitting,
//! joining, comment stripping and decimal formatting, over `Seq<char>` views.
use vstd::prelude::*;
use vstd::string::StrSliceExecFns;
use vstd::string::StringExecFns;

verus! {

/// ASCII lowering of a single character; everything outside `A..Z` is kept.
pub open spec fn lower_char(c: char) -> char {
    if 'A' <= c && c <= 'Z' {
        ((c as u32) + 32) as char
    } else {
        c
    }
}

/// ASCII lowering of a whole character sequence.
pub open spec fn lower_seq(s: Seq<char>) -> Seq<char> {
    s.map_values(|c: char| lower_char(c))
}

/// Compares two characters without regard to ASCII case.
pub fn chars_eq_ci(a: char, b: char) -> (r: bool)
    ensures
        r == (lower_char(a) == lower_char(b)),
{
    let au = a as u32;
    let bu = b as u32;
    let al = if 65 <= au && au <= 90 { au + 32 } else { au };
    let bl = if 65 <= bu && bu <= 90 { bu + 32 } else { bu };
    al == bl
}

/// Whitespace as trimming understands it.
pub open spec fn is_space_char(c: char) -> bool {
    c == ' ' || c == '\t' || c == '\n' || c == '\r' || c == '\u{b}' || c == '\u{c}'
}

/// Executable counterpart of [`is_space_char`].
pub fn is_space(c: char) -> (r: bool)
    ensures
        r == is_space_char(c),
{
    c == ' ' || c == '\t' || c == '\n' || c == '\r' || c == '\u{b}' || c == '\u{c}'
}

/// The sequence with its leading whitespace removed.
pub open spec fn trim_front(s: Seq<char>) -> Seq<char>
    decreases s.len(),
{
    if s.len() > 0 && is_space_char(s.first()) {
        trim_front(s.drop_first())
    } else {
        s
    }
}

/// The sequence with its trailing whitespace removed.
pub open spec fn trim_back(s: Seq<char>) -> Seq<char>
    decreases s.len(),
{
    if s.len() > 0 && is_space_char(s.last()) {
        trim_back(s.drop_last())
    } else {
        s
    }
}

/// The sequence with whitespace removed from both ends.
pub open spec fn trimmed(s: Seq<char>) -> Seq<char> {
    trim_back(trim_front(s))
}

proof fn lemma_trim_front_skip(s: Seq<char>, i: int)
    requires
        0 <= i <= s.len(),
        forall|k: int| 0 <= k < i ==> is_space_char(s[k]),
    ensures
        trim_front(s) == trim_front(s.skip(i)),
    decreases i,
{
    if i > 0 {
        assert(s.len() > 0 && is_space_char(s.first()));
        assert(s.drop_first() =~= s.skip(1));
        lemma_trim_front_skip(s.skip(1), i - 1);
        assert(s.skip(1).skip(i - 1) =~= s.skip(i));
    } else {
        assert(s.skip(0) =~= s);
    }
}

proof fn lemma_trim_back_take(s: Seq<char>, j: int)
    requires
        0 <= j <= s.len(),
        forall|k: int| j <= k < s.len() ==> is_space_char(s[k]),
    ensures
        trim_back(s) == trim_back(s.take(j)),
    decreases s.len() - j,
{
    if j < s.len() {
        assert(s.len() > 0 && is_space_char(s.last()));
        assert(s.drop_last() =~= s.take(s.len() - 1));
        lemma_trim_back_take(s.take(s.len() - 1), j);
        assert(s.take(s.len() - 1).take(j) =~= s.take(j));
    } else {
        assert(s.take(j) =~= s);
    }
}

/// Removes whitespace from both ends, as trimming a statement fragment does.
pub fn trim_str(s: &str) -> (r: String)
    ensures
        r@ == trimmed(s@),
{
    let n = s.unicode_len();
    let mut lo: usize = 0;
    while lo < n && is_space(s.get_char(lo))
        invariant
            0 <= lo <= n,
            n == s@.len(),
            forall|k: int| 0 <= k < lo ==> is_space_char(s@[k]),
        decreases n - lo,
    {
        lo = lo + 1;
    }
    proof {
        lemma_trim_front_skip(s@, lo as int);
    }
    // trim_front(s@) == s@.skip(lo): either lo == n (empty) or s@[lo] not space
    assert(trim_front(s@.skip(lo as int)) == s@.skip(lo as int)) by {
        if lo < n {
            assert(!is_space_char(s@.skip(lo as int).first()));
        }
    };
    let mut hi: usize = n;
    while hi > lo && is_space(s.get_char(hi - 1))
        invariant
            lo <= hi <= n,
            n == s@.len(),
            forall|k: int| hi <= k < n ==> is_space_char(s@[k]),
        decreases hi,
    {
        hi = hi - 1;
    }
    proof {
        let t = s@.skip(lo as int);
        lemma_trim_back_take(t, hi - lo);
        assert(trim_back(t.take(hi - lo)) == t.take(hi - lo)) by {
            if hi > lo {
                assert(!is_space_char(t.take(hi - lo).last()));
            }
        };
    }
    let piece = s.substring_char(lo, hi);
    assert(piece@ =~= s@.skip(lo as int).take(hi - lo));
    piece.to_owned()
}

/// Whether `s` begins with `p`, comparing without regard to ASCII case.
pub open spec fn starts_with_ci(s: Seq<char>, p: Seq<char>) -> bool {
    s.len() >= p.len() && lower_seq(s.take(p.len() as int)) == lower_seq(p)
}

/// Executable counterpart of [`starts_with_ci`].
pub fn str_starts_with_ci(s: &str, p: &str) -> (r: bool)
    ensures
        r == starts_with_ci(s@, p@),
{
    let n = s.unicode_len();
    let m = p.unicode_len();
    if n < m {
        assert(!starts_with_ci(s@, p@));
        return false;
    }
    let mut i: usize = 0;
    while i < m
        invariant
            0 <= i <= m <= n,
            n == s@.len(),
            m == p@.len(),
            forall|k: int| 0 <= k < i ==> lower_char(s@[k]) == lower_char(p@[k]),
        decreases m - i,
    {
        if !chars_eq_ci(s.get_char(i), p.get_char(i)) {
            assert(lower_seq(s@.take(m as int))[i as int] != lower_seq(p@)[i as int]);
            return false;
        }
        i = i + 1;
    }
    assert(lower_seq(s@.take(m as int)) =~= lower_seq(p@));
    true
}

/// The index of the first occurrence of `d`, if any.
pub open spec fn find_first(s: Seq<char>, d: char) -> Option<int>
    decreases s.len(),
{
    if s.len() == 0 {
        None
    } else if s.first() == d {
        Some(0)
    } else {
        match find_first(s.drop_first(), d) {
            Some(i) => Some(i + 1),
            None => None,
        }
    }
}

proof fn lemma_find_first(s: Seq<char>, d: char)
    ensures
        match find_first(s, d) {
            Some(i) => 0 <= i < s.len() && s[i] == d && (forall|k: int| 0 <= k < i ==> s[k] != d),
            None => forall|k: int| 0 <= k < s.len() ==> s[k] != d,
        },
    decreases s.len(),
{
    if s.len() > 0 && s.first() != d {
        let r = s.drop_first();
        lemma_find_first(r, d);
        match find_first(r, d) {
            Some(j) => {
                assert forall|k: int| 0 <= k < j + 1 implies s[k] != d by {
                    if k > 0 {
                        assert(r[k - 1] != d);
                    }
                };
            },
            None => {
                assert forall|k: int| 0 <= k < s.len() implies s[k] != d by {
                    if k > 0 {
                        assert(r[k - 1] != d);
                    }
                };
            },
        }
    }
}

/// The pieces of `s` between occurrences of the delimiter `d`, empty pieces
/// included, as splitting a string on a character yields them.
pub open spec fn split_on(s: Seq<char>, d: char) -> Seq<Seq<char>>
    decreases s.len(),
    via split_on_decreases
{
    match find_first(s, d) {
        Some(i) => seq![s.take(i)] + split_on(s.skip(i + 1), d),
        None => seq![s],
    }
}

#[via_fn]
proof fn split_on_decreases(s: Seq<char>, d: char) {
    lemma_find_first(s, d);
}

proof fn lemma_find_first_at(s: Seq<char>, d: char, i: int)
    requires
        0 <= i < s.len(),
        s[i] == d,
        forall|k: int| 0 <= k < i ==> s[k] != d,
    ensures
        find_first(s, d) == Some(i),
    decreases i,
{
    if i > 0 {
        lemma_find_first_at(s.drop_first(), d, i - 1);
    }
}

proof fn lemma_find_first_none(s: Seq<char>, d: char)
    requires
        forall|k: int| 0 <= k < s.len() ==> s[k] != d,
    ensures
        find_first(s, d) == None::<int>,
    decreases s.len(),
{
    if s.len() > 0 {
        lemma_find_first_none(s.drop_first(), d);
    }
}

/// The views of a vector of strings.
pub open spec fn views_of(v: Seq<String>) -> Seq<Seq<char>> {
    v.map_values(|p: String| p@)
}

/// Splits on a delimiter character, keeping empty pieces.
pub fn split_str(s: &str, d: char) -> (r: Vec<String>)
    ensures
        views_of(r@) == split_on(s@, d),
{
    let n = s.unicode_len();
    let mut pieces: Vec<String> = Vec::new();
    let mut start: usize = 0;
    let mut i: usize = 0;
    proof {
        assert(s@.skip(0) =~= s@);
        assert(views_of(pieces@) + split_on(s@, d) =~= split_on(s@, d));
    }
    while i < n
        invariant
            0 <= start <= i <= n,
            n == s@.len(),
            forall|k: int| start <= k < i ==> s@[k] != d,
            split_on(s@, d) =~= views_of(pieces@) + split_on(s@.skip(start as int), d),
        decreases n - i,
    {
        if s.get_char(i) == d {
            let ghost rest = s@.skip(start as int);
            proof {
                lemma_find_first_at(rest, d, i - start);
                assert(rest.take(i - start) =~= s@.subrange(start as int, i as int));
                assert(rest.skip(i - start + 1) =~= s@.skip(i + 1));
            }
            let piece = s.substring_char(start, i);
            pieces.push(piece.to_owned());
            assert(views_of(pieces@) =~= views_of(pieces@.drop_last()) + seq![s@.subrange(
                start as int, i as int)]);
            start = i + 1;
        }
        i = i + 1;
    }
    let ghost rest = s@.skip(start as int);
    proof {
        lemma_find_first_none(rest, d);
    }
    let piece = s.substring_char(start, n);
    pieces.push(piece.to_owned());
    assert(views_of(pieces@) =~= views_of(pieces@.drop_last()) + seq![rest]) by {
        assert(rest =~= s@.subrange(start as int, n as int));
    };
    assert(views_of(pieces@) =~= views_of(pieces@.drop_last()) + split_on(rest, d));
    pieces
}

/// The pieces joined with the separator between them.
pub open spec fn join_with(parts: Seq<Seq<char>>, sep: Seq<char>) -> Seq<char>
    decreases parts.len(),
{
    if parts.len() == 0 {
        Seq::empty()
    } else if parts.len() == 1 {
        parts[0]
    } else {
        join_with(parts.drop_last(), sep) + sep + parts.last()
    }
}

/// Joins string pieces with a separator.
pub fn join_strs(parts: &Vec<String>, sep: &str) -> (r: String)
    ensures
        r@ == join_with(views_of(parts@), sep@),
{
    let mut out = String::new();
    let mut i: usize = 0;
    while i < parts.len()
        invariant
            0 <= i <= parts@.len(),
            out@ =~= join_with(views_of(parts@).take(i as int), sep@),
        decreases parts@.len() - i,
    {
        if i > 0 {
            out.append(sep);
        }
        out.append(parts[i].as_str());
        proof {
            let vs = views_of(parts@);
            assert(vs.take(i + 1).drop_last() =~= vs.take(i as int));
            assert(vs.take(i + 1).last() == parts@[i as int]@);
        }
        i = i + 1;
    }
    assert(views_of(parts@).take(parts@.len() as int) =~= views_of(parts@));
    out
}

/// Whether a line's trimmed content begins with the line-comment marker.
pub open spec fn line_is_comment(l: Seq<char>) -> bool {
    let t = trimmed(l);
    t.len() >= 2 && t[0] == '-' && t[1] == '-'
}

/// The lines that survive line-comment stripping, in order.
pub open spec fn kept_lines(ls: Seq<Seq<char>>) -> Seq<Seq<char>>
    decreases ls.len(),
{
    if ls.len() == 0 {
        Seq::empty()
    } else {
        let rest = kept_lines(ls.drop_last());
        if line_is_comment(ls.last()) {
            rest
        } else {
            rest.push(ls.last())
        }
    }
}

/// The text with every line whose trimmed content starts with `--` removed.
pub open spec fn strip_line_comments(s: Seq<char>) -> Seq<char> {
    join_with(kept_lines(split_on(s, '\n')), seq!['\n'])
}

/// Executable counterpart of [`line_is_comment`].
pub fn line_starts_with_comment(l: &str) -> (r: bool)
    ensures
        r == line_is_comment(l@),
{
    let t = trim_str(l);
    let tn = t.as_str().unicode_len();
    tn >= 2 && t.as_str().get_char(0) == '-' && t.as_str().get_char(1) == '-'
}

/// Removes the lines whose trimmed content starts with the line-comment
/// marker, keeping the rest joined by newlines.
pub fn strip_line_comments_str(s: &str) -> (r: String)
    ensures
        r@ == strip_line_comments(s@),
{
    let lines = split_str(s, '\n');
    let mut kept: Vec<String> = Vec::new();
    let mut i: usize = 0;
    while i < lines.len()
        invariant
            0 <= i <= lines@.len(),
            views_of(kept@) =~= kept_lines(views_of(lines@).take(i as int)),
        decreases lines@.len() - i,
    {
        proof {
            let vs = views_of(lines@);
            assert(vs.take(i + 1).drop_last() =~= vs.take(i as int));
            assert(vs.take(i + 1).last() == lines@[i as int]@);
        }
        if !line_starts_with_comment(lines[i].as_str()) {
            kept.push(lines[i].clone());
            assert(views_of(kept@) =~= views_of(kept@.drop_last()).push(lines@[i as int]@));
        }
        i = i + 1;
    }
    assert(views_of(lines@).take(lines@.len() as int) =~= views_of(lines@));
    proof {
        reveal_strlit("\n");
        assert("\n"@ =~= seq!['\n']);
    }
    join_strs(&kept, "\n")
}

/// Whether two consecutive characters of `s` are `a` then `b`, at the first
/// position where that happens.
pub open spec fn find_pair(s: Seq<char>, a: char, b: char) -> Option<int>
    decreases s.len(),
{
    if s.len() < 2 {
        None
    } else if s[0] == a && s[1] == b {
        Some(0)
    } else {
        match find_pair(s.drop_first(), a, b) {
            Some(i) => Some(i + 1),
            None => None,
        }
    }
}

proof fn lemma_find_pair(s: Seq<char>, a: char, b: char)
    ensures
        match find_pair(s, a, b) {
            Some(i) => 0 <= i && i + 1 < s.len() && s[i] == a && s[i + 1] == b && (forall|k: int|
                0 <= k < i ==> !(#[trigger] s[k] == a && s[k + 1] == b)),
            None => forall|k: int| 0 <= k && k + 1 < s.len() ==> !(#[trigger] s[k] == a && s[k + 1] == b),
        },
    decreases s.len(),
{
    if s.len() >= 2 && !(s[0] == a && s[1] == b) {
        let d = s.drop_first();
        lemma_find_pair(d, a, b);
        match find_pair(d, a, b) {
            Some(j) => {
                assert forall|k: int| 0 <= k < j + 1 implies !(#[trigger] s[k] == a && s[k + 1]
                    == b) by {
                    if k > 0 {
                        assert(!(d[k - 1] == a && d[k] == b));
                    }
                };
            },
            None => {
                assert forall|k: int| 0 <= k && k + 1 < s.len() implies !(#[trigger] s[k] == a
                    && s[k + 1] == b) by {
                    if k > 0 {
                        assert(!(d[k - 1] == a && d[k] == b));
                    }
                };
            },
        }
    }
}

proof fn lemma_find_pair_at(s: Seq<char>, a: char, b: char, i: int)
    requires
        0 <= i,
        i + 1 < s.len(),
        s[i] == a,
        s[i + 1] == b,
        forall|k: int| 0 <= k < i ==> !(#[trigger] s[k] == a && s[k + 1] == b),
    ensures
        find_pair(s, a, b) == Some(i),
    decreases i,
{
    if i > 0 {
        lemma_find_pair_at(s.drop_first(), a, b, i - 1);
    }
}

proof fn lemma_find_pair_none(s: Seq<char>, a: char, b: char)
    requires
        forall|k: int| 0 <= k && k + 1 < s.len() ==> !(#[trigger] s[k] == a && s[k + 1] == b),
    ensures
        find_pair(s, a, b) == None::<int>,
    decreases s.len(),
{
    if s.len() >= 2 {
        lemma_find_pair_none(s.drop_first(), a, b);
    }
}

/// The text with every block comment removed: each `/*` up to the first
/// following `*/` is cut out; an unclosed opener leaves the rest untouched.
pub open spec fn strip_block_comments(s: Seq<char>) -> Seq<char>
    decreases s.len(),
    via strip_block_comments_decreases
{
    match find_pair(s, '/', '*') {
        None => s,
        Some(o) => match find_pair(s.skip(o + 2), '*', '/') {
            None => s,
            Some(c) => s.take(o) + strip_block_comments(s.skip(o + 2).skip(c + 2)),
        },
    }
}

#[via_fn]
proof fn strip_block_comments_decreases(s: Seq<char>) {
    lemma_find_pair(s, '/', '*');
    if let Some(o) = find_pair(s, '/', '*') {
        lemma_find_pair(s.skip(o + 2), '*', '/');
    }
}

/// Finds the first position at or after `from` where `a` is followed by `b`.
fn find_pair_str(s: &str, from: usize, a: char, b: char) -> (r: Option<usize>)
    requires
        from <= s@.len(),
    ensures
        match r {
            Some(j) => from <= j && find_pair(s@.skip(from as int), a, b) == Some(j - from),
            None => find_pair(s@.skip(from as int), a, b) == None::<int>,
        },
{
    let n = s.unicode_len();
    let mut i: usize = from;
    while n - i > 1
        invariant
            from <= i <= n,
            n == s@.len(),
            forall|k: int|
                from <= k && k + 1 < i + 1 ==> !(#[trigger] s@[k] == a && s@[k as int + 1] == b),
        decreases n - i,
    {
        if s.get_char(i) == a && s.get_char(i + 1) == b {
            proof {
                let rest = s@.skip(from as int);
                lemma_find_pair_at(rest, a, b, i - from);
            }
            return Some(i);
        }
        i = i + 1;
    }
    proof {
        lemma_find_pair_none(s@.skip(from as int), a, b);
    }
    None
}

/// Removes block comments, as [`strip_block_comments`] describes.
pub fn strip_block_comments_str(s: &str) -> (r: String)
    ensures
        r@ == strip_block_comments(s@),
{
    let n = s.unicode_len();
    let mut out = String::new();
    let mut pos: usize = 0;
    proof {
        assert(s@.skip(0) =~= s@);
    }
    loop
        invariant
            0 <= pos <= n,
            n == s@.len(),
            strip_block_comments(s@) =~= out@ + strip_block_comments(s@.skip(pos as int)),
        decreases n - pos,
    {
        let ghost rest = s@.skip(pos as int);
        match find_pair_str(s, pos, '/', '*') {
            None => {
                let tail = s.substring_char(pos, n);
                proof {
                    assert(tail@ =~= rest);
                }
                out.append(tail);
                return out;
            },
            Some(o) => {
                proof {
                    lemma_find_pair(rest, '/', '*');
                }
                match find_pair_str(s, o + 2, '*', '/') {
                    None => {
                        proof {
                            assert(s@.skip(o + 2) =~= rest.skip(o - pos + 2));
                        }
                        let tail = s.substring_char(pos, n);
                        proof {
                            assert(tail@ =~= rest);
                        }
                        out.append(tail);
                        return out;
                    },
                    Some(c) => {
                        proof {
                            assert(s@.skip(o + 2) =~= rest.skip(o - pos + 2));
                            lemma_find_pair(rest.skip(o - pos + 2), '*', '/');
                        }
                        let piece = s.substring_char(pos, o);
                        proof {
                            assert(piece@ =~= rest.take(o - pos));
                            assert(rest.skip(o - pos + 2).skip(c - (o + 2) + 2) =~= s@.skip(
                                c as int + 2));
                        }
                        out.append(piece);
                        pos = c + 2;
                    },
                }
            },
        }
    }
}

/// The decimal digit character for a value below ten.
pub open spec fn dec_digit(d: int) -> char {
    (48 + d) as char
}

/// The decimal representation of a non-negative integer, most significant
/// digit first.
pub open spec fn dec_rep(n: int) -> Seq<char>
    decreases n,
{
    if n < 10 {
        seq![dec_digit(n)]
    } else {
        dec_rep(n / 10).push(dec_digit(n % 10))
    }
}

/// The string slice holding one decimal digit.
fn digit_str(d: u64) -> (r: &'static str)
    requires
        d < 10,
    ensures
        r@ =~= seq![dec_digit(d as int)],
{
    let r: &'static str = match d {
        0 => "0",
        1 => "1",
        2 => "2",
        3 => "3",
        4 => "4",
        5 => "5",
        6 => "6",
        7 => "7",
        8 => "8",
        _ => "9",
    };
    proof {
        reveal_strlit("0");
        reveal_strlit("1");
        reveal_strlit("2");
        reveal_strlit("3");
        reveal_strlit("4");
        reveal_strlit("5");
        reveal_strlit("6");
        reveal_strlit("7");
        reveal_strlit("8");
        reveal_strlit("9");
    }
    r
}

/// Renders a non-negative integer in decimal.
pub fn u64_to_string(n: u64) -> (r: String)
    ensures
        r@ == dec_rep(n as int),
{
    let ghost full = dec_rep(n as int);
    let mut ds: Vec<u64> = Vec::new();
    let mut m = n;
    ds.push(m % 10);
    m = m / 10;
    while m > 0
        invariant
            forall|k: int| 0 <= k < ds@.len() ==> ds@[k] < 10,
            ds@.len() >= 1,
            full =~= (if m > 0 {
                dec_rep(m as int)
            } else {
                Seq::<char>::empty()
            }) + Seq::new(ds@.len(), |i: int| dec_digit(ds@[ds@.len() - 1 - i] as int)),
        decreases m,
    {
        ds.push(m % 10);
        m = m / 10;
    }
    let ghost revd = Seq::new(ds@.len(), |i: int| dec_digit(ds@[ds@.len() - 1 - i] as int));
    assert(full =~= revd);
    let mut out = String::new();
    let k = ds.len();
    let mut j: usize = k;
    while j > 0
        invariant
            0 <= j <= k,
            k == ds@.len(),
            forall|i: int| 0 <= i < ds@.len() ==> ds@[i] < 10,
            revd == Seq::new(ds@.len(), |i: int| dec_digit(ds@[ds@.len() - 1 - i] as int)),
            out@ =~= revd.take(k - j),
        decreases j,
    {
        out.append(digit_str(ds[j - 1]));
        assert(out@ =~= revd.take(k - j + 1)) by {
            assert(revd[k - j] == dec_digit(ds@[j - 1] as int));
        };
        j = j - 1;
    }
    assert(out@ =~= revd.take(k as int));
    assert(revd.take(k as int) =~= revd);
    out
}

/// Whether two string slices hold the same characters without regard to
/// ASCII case.
pub fn str_eq_ci(a: &str, b: &str) -> (r: bool)
    ensures
        r == (lower_seq(a@) == lower_seq(b@)),
{
    let n = a.unicode_len();
    let m = b.unicode_len();
    if n != m {
        assert(lower_seq(a@).len() != lower_seq(b@).len());
        return false;
    }
    let mut i: usize = 0;
    while i < n
        invariant
            0 <= i <= n,
            n == a@.len() == b@.len(),
            forall|k: int| 0 <= k < i ==> lower_char(a@[k]) == lower_char(b@[k]),
        decreases n - i,
    {
        if !chars_eq_ci(a.get_char(i), b.get_char(i)) {
            assert(lower_seq(a@)[i as int] != lower_seq(b@)[i as int]);
            return false;
        }
        i = i + 1;
    }
    assert(lower_seq(a@) =~= lower_seq(b@));
    true
}

/// Whether two string slices hold the same characters.
pub fn str_eq(a: &str, b: &str) -> (r: bool)
    ensures
        r == (a@ == b@),
{
    let n = a.unicode_len();
    let m = b.unicode_len();
    if n != m {
        return false;
    }
    let mut i: usize = 0;
    while i < n
        invariant
            0 <= i <= n,
            n == a@.len() == b@.len(),
            forall|k: int| 0 <= k < i ==> a@[k] == b@[k],
        decreases n - i,
    {
        if a.get_char(i) != b.get_char(i) {
            return false;
        }
        i = i + 1;
    }
    assert(a@ =~= b@);
    true
}

} // verus!
