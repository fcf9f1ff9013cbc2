use vstd::prelude::*;

verus! {

/// Characters that may appear in a URL.
pub open spec fn is_url_char(c: char) -> bool {
    ('A' <= c && c <= 'Z') || ('a' <= c && c <= 'z') || ('0' <= c && c <= '9') || c == '-' || c == '.'
        || c == '_' || c == '~' || c == ':' || c == '/' || c == '?' || c == '#' || c == '[' || c == ']'
        || c == '@' || c == '!' || c == '$' || c == '&' || c == '\'' || c == '(' || c == ')' || c == '*'
        || c == '+' || c == ',' || c == ';' || c == '=' || c == '%'
}

/// Punctuation dropped from the end of a URL.
pub open spec fn is_trailing_punct(c: char) -> bool {
    c == '.' || c == ',' || c == ';' || c == ':' || c == '!' || c == '?' || c == ')' || c == '>'
}

/// `p` occurs in `t` at position `i`.
pub open spec fn occurs_at(t: Seq<char>, p: Seq<char>, i: int) -> bool {
    0 <= i && i + p.len() <= t.len() && t.subrange(i, i + p.len()) == p
}

/// First position at or after `i` where `p` occurs in `t`.
pub open spec fn next_occurrence(t: Seq<char>, p: Seq<char>, i: int) -> Option<int>
    decreases t.len() + 1 - i,
{
    if i < 0 || i + p.len() > t.len() {
        None
    } else if occurs_at(t, p, i) {
        Some(i)
    } else {
        next_occurrence(t, p, i + 1)
    }
}

/// An occurrence found from `i` lies at or after `i` and within the text.
pub proof fn lemma_next_occurrence_bounds(t: Seq<char>, p: Seq<char>, i: int)
    ensures
        match next_occurrence(t, p, i) {
            Some(j) => i <= j && j + p.len() <= t.len() && occurs_at(t, p, j),
            None => true,
        },
    decreases t.len() + 1 - i,
{
    if 0 <= i && i + p.len() <= t.len() && !occurs_at(t, p, i) {
        lemma_next_occurrence_bounds(t, p, i + 1);
    }
}

/// End of the run of URL characters that starts at `i`.
pub open spec fn url_run_end(t: Seq<char>, i: int) -> int
    decreases t.len() - i,
{
    if i < 0 || i >= t.len() || !is_url_char(t[i]) {
        i
    } else {
        url_run_end(t, i + 1)
    }
}

/// `end` moved back over trailing punctuation, but not before `start`.
pub open spec fn trimmed_end(t: Seq<char>, start: int, end: int) -> int
    decreases end - start,
{
    if start < end && 0 < end <= t.len() && is_trailing_punct(t[end - 1]) {
        trimmed_end(t, start, end - 1)
    } else {
        end
    }
}

/// Scanning from `from`, the span `[start, end)` of the first URL with scheme `p` that covers
/// column `col`; each URL found is skipped whole before looking for the next.
pub open spec fn url_scan(t: Seq<char>, p: Seq<char>, from: int, col: int) -> Option<(int, int)>
    decreases t.len() - from,
{
    match next_occurrence(t, p, from) {
        None => None,
        Some(s) => {
            let e = url_run_end(t, s);
            let te = trimmed_end(t, s, e);
            if s <= col < te {
                Some((s, te))
            } else if from < e <= t.len() {
                url_scan(t, p, e, col)
            } else {
                None
            }
        },
    }
}

pub open spec fn https_scheme() -> Seq<char> {
    seq!['h', 't', 't', 'p', 's', ':', '/', '/']
}

pub open spec fn http_scheme() -> Seq<char> {
    seq!['h', 't', 't', 'p', ':', '/', '/']
}

/// The URL under column `col` of a line: an `https://` one first, else an `http://` one.
pub open spec fn url_span_at(t: Seq<char>, col: int) -> Option<(int, int)> {
    match url_scan(t, https_scheme(), 0, col) {
        Some(r) => Some(r),
        None => url_scan(t, http_scheme(), 0, col),
    }
}

fn url_char(c: char) -> (r: bool)
    ensures
        r == is_url_char(c),
{
    (c >= 'A' && c <= 'Z') || (c >= 'a' && c <= 'z') || (c >= '0' && c <= '9') || c == '-' || c == '.'
        || c == '_' || c == '~' || c == ':' || c == '/' || c == '?' || c == '#' || c == '[' || c == ']'
        || c == '@' || c == '!' || c == '$' || c == '&' || c == '\'' || c == '(' || c == ')' || c == '*'
        || c == '+' || c == ',' || c == ';' || c == '=' || c == '%'
}

fn trailing_punct(c: char) -> (r: bool)
    ensures
        r == is_trailing_punct(c),
{
    c == '.' || c == ',' || c == ';' || c == ':' || c == '!' || c == '?' || c == ')' || c == '>'
}

fn matches_at(t: &Vec<char>, p: &Vec<char>, i: usize) -> (r: bool)
    requires
        i + p@.len() <= t@.len(),
    ensures
        r == occurs_at(t@, p@, i as int),
{
    let n = t.len();
    let mut k: usize = 0;
    while k < p.len()
        invariant
            n == t@.len(),
            i + p@.len() <= t@.len(),
            k <= p@.len(),
            forall|j: int| 0 <= j < k ==> t@[i + j] == p@[j],
        decreases p@.len() - k,
    {
        if t[i + k] != p[k] {
            assert(t@.subrange(i as int, i + p@.len())[k as int] != p@[k as int]);
            return false;
        }
        k += 1;
    }
    assert(t@.subrange(i as int, i + p@.len()) =~= p@);
    true
}

fn find_from(t: &Vec<char>, p: &Vec<char>, from: usize) -> (r: Option<usize>)
    ensures
        r == match next_occurrence(t@, p@, from as int) {
            Some(i) => Some(i as usize),
            None => None::<usize>,
        },
{
    let n = t.len();
    if p.len() == 0 {
        if from <= n {
            assert(t@.subrange(from as int, from as int) =~= p@);
            return Some(from);
        }
        return None;
    }
    let mut i = from;
    while i <= n && p.len() <= n - i
        invariant
            n == t@.len(),
            p@.len() > 0,
            from <= i,
            next_occurrence(t@, p@, i as int) == next_occurrence(t@, p@, from as int),
        decreases t@.len() + 1 - i,
    {
        if matches_at(t, p, i) {
            return Some(i);
        }
        i += 1;
    }
    None
}

fn run_end(t: &Vec<char>, start: usize) -> (r: usize)
    requires
        start <= t@.len(),
    ensures
        r == url_run_end(t@, start as int),
        start <= r <= t@.len(),
{
    let mut i = start;
    while i < t.len() && url_char(t[i])
        invariant
            start <= i <= t@.len(),
            url_run_end(t@, i as int) == url_run_end(t@, start as int),
        decreases t@.len() - i,
    {
        i += 1;
    }
    i
}

fn trim_end(t: &Vec<char>, start: usize, end: usize) -> (r: usize)
    requires
        start <= end <= t@.len(),
    ensures
        r == trimmed_end(t@, start as int, end as int),
        start <= r <= end,
{
    let mut e = end;
    while start < e && trailing_punct(t[e - 1])
        invariant
            start <= e <= end <= t@.len(),
            trimmed_end(t@, start as int, e as int) == trimmed_end(t@, start as int, end as int),
        decreases e,
    {
        e -= 1;
    }
    e
}

fn scan(t: &Vec<char>, p: &Vec<char>, col: usize) -> (r: Option<(usize, usize)>)
    ensures
        r == match url_scan(t@, p@, 0, col as int) {
            Some((s, e)) => Some((s as usize, e as usize)),
            None => None::<(usize, usize)>,
        },
{
    let mut start: usize = 0;
    while start <= t.len()
        invariant
            url_scan(t@, p@, start as int, col as int) == url_scan(t@, p@, 0, col as int),
        decreases t@.len() + 1 - start,
    {
        match find_from(t, p, start) {
            None => {
                return None;
            },
            Some(s) => {
                proof {
                    lemma_next_occurrence_bounds(t@, p@, start as int);
                }
                let e = run_end(t, s);
                let te = trim_end(t, s, e);
                if s <= col && col < te {
                    return Some((s, te));
                }
                if start < e {
                    start = e;
                } else {
                    return None;
                }
            },
        }
    }
    None
}

/// Span `[start, end)` of the URL under column `col` of a line of text: an `https://` or
/// `http://` address running over URL characters, without trailing punctuation.
pub fn url_at(line: &Vec<char>, col: usize) -> (r: Option<(usize, usize)>)
    ensures
        r == match url_span_at(line@, col as int) {
            Some((s, e)) => Some((s as usize, e as usize)),
            None => None::<(usize, usize)>,
        },
{
    let https = vec!['h', 't', 't', 'p', 's', ':', '/', '/'];
    let http = vec!['h', 't', 't', 'p', ':', '/', '/'];
    assert(https@ =~= https_scheme());
    assert(http@ =~= http_scheme());
    match scan(line, &https, col) {
        Some(r) => Some(r),
        None => scan(line, &http, col),
    }
}

/// Longest title kept, in characters.
pub const MAX_TITLE_CHARS: usize = 256;

/// Control characters (Unicode category Cc): U+0000 to U+001F and U+007F to U+009F.
pub open spec fn is_control(c: char) -> bool {
    c <= '\u{1f}' || ('\u{7f}' <= c && c <= '\u{9f}')
}

/// `s` without its control characters.
pub open spec fn printable(s: Seq<char>) -> Seq<char>
    decreases s.len(),
{
    if s.len() == 0 {
        s
    } else if is_control(s.last()) {
        printable(s.drop_last())
    } else {
        printable(s.drop_last()).push(s.last())
    }
}

/// A title as a program set it, made safe to show: control characters dropped, and at most
/// the first [`MAX_TITLE_CHARS`] characters of what is left.
pub fn sanitize_title(title: &Vec<char>) -> (r: Vec<char>)
    ensures
        r@ == if printable(title@).len() <= MAX_TITLE_CHARS {
            printable(title@)
        } else {
            printable(title@).take(MAX_TITLE_CHARS as int)
        },
{
    let mut r: Vec<char> = Vec::new();
    let mut i: usize = 0;
    while i < title.len() && r.len() < MAX_TITLE_CHARS
        invariant
            i <= title@.len(),
            r@ == printable(title@.take(i as int)),
            r@.len() <= MAX_TITLE_CHARS,
        decreases title@.len() - i,
    {
        let c = title[i];
        assert(title@.take(i + 1).drop_last() =~= title@.take(i as int));
        if !(c <= '\u{1f}' || (c >= '\u{7f}' && c <= '\u{9f}')) {
            r.push(c);
        }
        i += 1;
    }
    proof {
        lemma_printable_prefix(title@, i as int);
        if i == title@.len() {
            assert(title@.take(i as int) =~= title@);
        }
    }
    r
}

/// Dropping control characters from a prefix gives a prefix of the whole result, and the
/// whole result is no longer than the prefix's result plus what follows.
proof fn lemma_printable_prefix(s: Seq<char>, i: int)
    requires
        0 <= i <= s.len(),
    ensures
        printable(s.take(i)).len() <= printable(s).len(),
        printable(s).take(printable(s.take(i)).len() as int) == printable(s.take(i)),
    decreases s.len() - i,
{
    if i < s.len() {
        lemma_printable_prefix(s, i + 1);
        assert(s.take(i + 1).drop_last() =~= s.take(i));
        let a = printable(s.take(i));
        let b = printable(s.take(i + 1));
        let w = printable(s);
        assert(w.take(a.len() as int) =~= b.take(a.len() as int));
    } else {
        assert(s.take(i) =~= s);
        assert(printable(s).take(printable(s).len() as int) =~= printable(s));
    }
}

/// Index of the match after `current` among `count` matches, or the one before it when
/// `backwards`, wrapping around.
pub fn step_match(current: usize, count: usize, backwards: bool) -> (r: usize)
    requires
        current < count,
    ensures
        r == if backwards {
            if current == 0 { count - 1 } else { current - 1 }
        } else {
            (current + 1) % (count as int)
        },
{
    if backwards {
        if current == 0 { count - 1 } else { current - 1 }
    } else {
        (current + 1) % count
    }
}

/// Change of the scrollback offset that brings grid line `line` (0 the top of the screen,
/// negative in the scrollback) to the middle of a screen of `screen_lines` lines, from the
/// offset `display_offset`.
pub fn match_scroll_delta(line: i32, screen_lines: i32, display_offset: usize) -> (r: i128)
    requires
        screen_lines >= 0,
    ensures
        r == (if -(line as int) - screen_lines / 2 > 0 { -(line as int) - screen_lines / 2 } else { 0 })
            - display_offset as int,
{
    let target: i128 = -(line as i128) - (screen_lines / 2) as i128;
    let target = if target > 0 { target } else { 0 };
    target - display_offset as i128
}

/// Lower case of a text, as `str::to_lowercase` gives it.
pub uninterp spec fn lower_of(s: Seq<char>) -> Seq<char>;

/// Relies on `str::to_lowercase`: the result depends on the characters alone, an empty text
/// stays empty, and a non-empty one stays non-empty, as every character lower-cases to one or
/// more characters.
#[verifier::external_body]
fn lowercase(s: &Vec<char>) -> (r: Vec<char>)
    ensures
        r@ == lower_of(s@),
        s@.len() == 0 ==> r@.len() == 0,
        s@.len() > 0 ==> r@.len() > 0,
{
    s.iter().collect::<String>().to_lowercase().chars().collect()
}

/// Every position where `needle` occurs in `haystack`, overlapping ones included, in
/// increasing order; none for an empty needle.
pub fn find_all(haystack: &Vec<char>, needle: &Vec<char>) -> (r: Vec<usize>)
    ensures
        needle@.len() == 0 ==> r@.len() == 0,
        needle@.len() > 0 ==> {
            &&& forall|a: int, b: int| 0 <= a < b < r@.len() ==> r@[a] < r@[b]
            &&& forall|a: int| 0 <= a < r@.len() ==> occurs_at(haystack@, needle@, #[trigger] r@[a] as int)
            &&& forall|i: int| #[trigger] occurs_at(haystack@, needle@, i) ==> r@.contains(i as usize)
        },
{
    let mut r: Vec<usize> = Vec::new();
    if needle.len() == 0 {
        return r;
    }
    let mut i: usize = 0;
    while i <= haystack.len() && needle.len() <= haystack.len() - i
        invariant
            needle@.len() > 0,
            forall|a: int, b: int| 0 <= a < b < r@.len() ==> r@[a] < r@[b],
            forall|a: int| 0 <= a < r@.len() ==> r@[a] < i,
            forall|a: int| 0 <= a < r@.len() ==> occurs_at(haystack@, needle@, #[trigger] r@[a] as int),
            forall|k: int| 0 <= k < i && #[trigger] occurs_at(haystack@, needle@, k) ==> r@.contains(k as usize),
        decreases haystack@.len() + 1 - i,
    {
        let ghost r0 = r@;
        if matches_at(haystack, needle, i) {
            r.push(i);
        }
        proof {
            assert forall|k: int| 0 <= k < i + 1 && #[trigger] occurs_at(haystack@, needle@, k) implies r@.contains(
                k as usize,
            ) by {
                if k < i {
                    let a = choose|a: int| 0 <= a < r0.len() && r0[a] == k as usize;
                    assert(r@[a] == k as usize);
                } else {
                    assert(r@[r@.len() - 1] == i);
                }
            }
        }
        i += 1;
    }
    r
}

/// Positions where `query` occurs in `line`, ignoring case: the occurrences of the lower-cased
/// query in the lower-cased line. None for an empty query. Positions count characters of the
/// lower-cased line, which are the characters of `line` only where lower-casing turns each
/// character into exactly one.
pub fn search_line(line: &Vec<char>, query: &Vec<char>) -> (r: Vec<usize>)
    ensures
        query@.len() == 0 ==> r@.len() == 0,
        query@.len() > 0 ==> {
            &&& forall|a: int, b: int| 0 <= a < b < r@.len() ==> r@[a] < r@[b]
            &&& forall|a: int|
                0 <= a < r@.len() ==> occurs_at(lower_of(line@), lower_of(query@), #[trigger] r@[a] as int)
            &&& forall|i: int| #[trigger] occurs_at(lower_of(line@), lower_of(query@), i) ==> r@.contains(i as usize)
        },
{
    if query.len() == 0 {
        return Vec::new();
    }
    let lower_line = lowercase(line);
    let lower_query = lowercase(query);
    find_all(&lower_line, &lower_query)
}

} // verus!
