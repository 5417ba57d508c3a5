//! The range synthesizer: renders a located match as a single compact range
//! descriptor. The two structural location paths are trimmed of their
//! trailing `:offset` and leaf segment, their common `/`-separated prefix is
//! factored out, and each side's remaining suffix is annotated with its
//! intra-paragraph offset.

use vstd::prelude::*;

verus! {

/// Index of the first occurrence of `c` in `s` at or after `i`.
pub open spec fn first_char_from(s: Seq<char>, c: char, i: int) -> Option<int>
    decreases s.len() - i,
{
    if i < 0 || i >= s.len() {
        None
    } else if s[i] == c {
        Some(i)
    } else {
        first_char_from(s, c, i + 1)
    }
}

/// Index of the last occurrence of `c` in `s` strictly before `i`.
pub open spec fn last_char_before(s: Seq<char>, c: char, i: int) -> Option<int>
    decreases i,
{
    if i <= 0 || i > s.len() {
        None
    } else if s[i - 1] == c {
        Some(i - 1)
    } else {
        last_char_before(s, c, i - 1)
    }
}

pub proof fn lemma_first_char_from_correct(s: Seq<char>, c: char, i: int)
    requires
        0 <= i,
    ensures
        match first_char_from(s, c, i) {
            Some(j) => i <= j < s.len() && s[j] == c && forall|k: int| i <= k < j ==> s[k] != c,
            None => forall|k: int| i <= k < s.len() ==> s[k] != c,
        },
    decreases s.len() - i,
{
    if i < s.len() && s[i] != c {
        lemma_first_char_from_correct(s, c, i + 1);
    }
}

pub proof fn lemma_last_char_before_correct(s: Seq<char>, c: char, i: int)
    requires
        i <= s.len(),
    ensures
        match last_char_before(s, c, i) {
            Some(j) => 0 <= j < i && s[j] == c && forall|k: int| j < k < i ==> s[k] != c,
            None => forall|k: int| 0 <= k < i ==> s[k] != c,
        },
    decreases i,
{
    if i > 0 && s[i - 1] != c {
        lemma_last_char_before_correct(s, c, i - 1);
    }
}

/// The location string up to (not including) its first `:`, or all of it
/// when it has none: the optional trailing offset annotation is discarded.
pub open spec fn strip_offset(s: Seq<char>) -> Seq<char> {
    match first_char_from(s, ':', 0) {
        Some(i) => s.take(i),
        None => s,
    }
}

/// The path up to (not including) its last `/`, or empty when it has none:
/// the trailing leaf segment is discarded.
pub open spec fn sanitize(s: Seq<char>) -> Seq<char> {
    match last_char_before(s, '/', s.len() as int) {
        Some(i) => s.take(i),
        None => Seq::empty(),
    }
}

/// Split on `/`: the pieces between the separators, in order. A string
/// without a `/` yields itself as its only piece.
pub open spec fn split_slash(s: Seq<char>) -> Seq<Seq<char>>
    decreases s.len(),
    via split_slash_decreases
{
    match first_char_from(s, '/', 0) {
        Some(i) => seq![s.take(i)] + split_slash(s.skip(i + 1)),
        None => seq![s],
    }
}

#[via_fn]
proof fn split_slash_decreases(s: Seq<char>) {
    lemma_first_char_from_correct(s, '/', 0);
}

/// Rejoin segments, prefixing every one with `/`.
pub open spec fn join_slash(ps: Seq<Seq<char>>) -> Seq<char>
    decreases ps.len(),
{
    if ps.len() == 0 {
        Seq::empty()
    } else {
        seq!['/'] + ps[0] + join_slash(ps.drop_first())
    }
}

/// Number of leading segments on which the two sides agree.
pub open spec fn lcp(a: Seq<Seq<char>>, b: Seq<Seq<char>>) -> int
    decreases a.len(),
{
    if a.len() == 0 || b.len() == 0 || a[0] != b[0] {
        0
    } else {
        1 + lcp(a.drop_first(), b.drop_first())
    }
}

/// The decimal digit character for `d`.
pub open spec fn digit_char(d: nat) -> char {
    if d == 0 {
        '0'
    } else if d == 1 {
        '1'
    } else if d == 2 {
        '2'
    } else if d == 3 {
        '3'
    } else if d == 4 {
        '4'
    } else if d == 5 {
        '5'
    } else if d == 6 {
        '6'
    } else if d == 7 {
        '7'
    } else if d == 8 {
        '8'
    } else {
        '9'
    }
}

/// The decimal digits of `n`, most significant first.
pub open spec fn dec_digits(n: nat) -> Seq<char>
    decreases n,
{
    if n < 10 {
        seq![digit_char(n)]
    } else {
        dec_digits(n / 10).push(digit_char(n % 10))
    }
}

/// One side's final entity: its divergent path suffix, the fixed first
/// text-node segment `/1`, and the intra-paragraph offset.
pub open spec fn entity(suffix: Seq<char>, off: nat) -> Seq<char> {
    suffix + "/1:"@ + dec_digits(off)
}

/// The segments compared for the common prefix: the pieces of the sanitized
/// path with its first piece (the artifact of the leading separator) dropped.
pub open spec fn path_segments(s: Seq<char>) -> Seq<Seq<char>> {
    split_slash(s).drop_first()
}

/// The whole synthesized range descriptor for two location strings and two
/// intra-paragraph offsets. The divergent suffixes are cut from the
/// sanitized paths at the character length of the common path.
pub open spec fn cfi_descriptor(start_cfi: Seq<char>, end_cfi: Seq<char>, so: nat, eo: nat) -> Seq<
    char,
> {
    let sp = sanitize(strip_offset(start_cfi));
    let ep = sanitize(strip_offset(end_cfi));
    let common = join_slash(path_segments(sp).take(lcp(path_segments(sp), path_segments(ep))));
    "epubcfi("@ + common + ","@ + entity(sp.skip(common.len() as int), so) + ","@ + entity(
        ep.skip(common.len() as int),
        eo,
    ) + ")"@
}

/// The first piece, then each remaining piece prefixed by `/`, rebuilds the
/// split string exactly.
proof fn lemma_split_join(s: Seq<char>)
    ensures
        split_slash(s).len() >= 1,
        split_slash(s)[0] + join_slash(split_slash(s).drop_first()) == s,
    decreases s.len(),
{
    lemma_first_char_from_correct(s, '/', 0);
    match first_char_from(s, '/', 0) {
        Some(i) => {
            let t = s.skip(i + 1);
            lemma_split_join(t);
            let pt = split_slash(t);
            assert((seq![s.take(i)] + split_slash(t)).drop_first() =~= split_slash(t));
            assert(join_slash(pt) == seq!['/'] + pt[0] + join_slash(pt.drop_first()));
            assert(seq!['/'] + pt[0] + join_slash(pt.drop_first()) =~= seq!['/'] + (pt[0]
                + join_slash(pt.drop_first())));
            assert(join_slash(pt) == seq!['/'] + t);
            assert(s.take(i) + (seq!['/'] + t) =~= s);
        },
        None => {
            assert((seq![s]).drop_first() =~= Seq::<Seq<char>>::empty());
            assert(s + join_slash(Seq::<Seq<char>>::empty()) =~= s);
        },
    }
}

/// A string that begins with `/` splits into an empty first piece.
proof fn lemma_leading_slash(s: Seq<char>)
    requires
        s.len() > 0,
        s[0] == '/',
    ensures
        split_slash(s)[0] == Seq::<char>::empty(),
{
    assert(first_char_from(s, '/', 0) == Some(0int));
    assert(s.take(0) =~= Seq::<char>::empty());
}

/// Joining distributes over cutting the segment list at `k`.
proof fn lemma_join_take_skip(ps: Seq<Seq<char>>, k: int)
    requires
        0 <= k <= ps.len(),
    ensures
        join_slash(ps) == join_slash(ps.take(k)) + join_slash(ps.skip(k)),
    decreases k,
{
    if k == 0 {
        assert(ps.take(0) =~= Seq::<Seq<char>>::empty());
        assert(ps.skip(0) =~= ps);
        assert(Seq::<char>::empty() + join_slash(ps) =~= join_slash(ps));
    } else {
        lemma_join_take_skip(ps.drop_first(), k - 1);
        assert(ps.drop_first().take(k - 1) =~= ps.take(k).drop_first());
        assert(ps.drop_first().skip(k - 1) =~= ps.skip(k));
        assert(join_slash(ps.take(k)) == seq!['/'] + ps[0] + join_slash(ps.take(k).drop_first()));
        assert(join_slash(ps) == seq!['/'] + ps[0] + join_slash(ps.drop_first()));
        assert(seq!['/'] + ps[0] + (join_slash(ps.take(k).drop_first()) + join_slash(ps.skip(k)))
            =~= (seq!['/'] + ps[0] + join_slash(ps.take(k).drop_first())) + join_slash(ps.skip(k)));
    }
}

/// Appending segment `j` extends the joined prefix by `/` and that segment.
proof fn lemma_join_step(ps: Seq<Seq<char>>, j: int)
    requires
        0 <= j < ps.len(),
    ensures
        join_slash(ps.take(j + 1)) == join_slash(ps.take(j)) + seq!['/'] + ps[j],
{
    lemma_join_take_skip(ps.take(j + 1), j);
    assert(ps.take(j + 1).take(j) =~= ps.take(j));
    let tail = ps.take(j + 1).skip(j);
    assert(tail =~= seq![ps[j]]);
    assert(join_slash(seq![ps[j]]) == seq!['/'] + ps[j] + join_slash(
        seq![ps[j]].drop_first(),
    ));
    assert(seq![ps[j]].drop_first() =~= Seq::<Seq<char>>::empty());
    assert(seq!['/'] + ps[j] + Seq::<char>::empty() =~= seq!['/'] + ps[j]);
    assert(join_slash(ps.take(j)) + (seq!['/'] + ps[j]) =~= join_slash(ps.take(j)) + seq!['/']
        + ps[j]);
}

/// The common-prefix count is bounded and the counted segments agree.
pub proof fn lemma_lcp_correct(a: Seq<Seq<char>>, b: Seq<Seq<char>>)
    ensures
        0 <= lcp(a, b) <= a.len(),
        lcp(a, b) <= b.len(),
        forall|j: int| 0 <= j < lcp(a, b) ==> a[j] == b[j],
    decreases a.len(),
{
    if a.len() != 0 && b.len() != 0 && a[0] == b[0] {
        lemma_lcp_correct(a.drop_first(), b.drop_first());
        assert forall|j: int| 0 <= j < lcp(a, b) implies a[j] == b[j] by {
            if j > 0 {
                assert(a.drop_first()[j - 1] == b.drop_first()[j - 1]);
            }
        }
    }
}

/// Agreement up to `k` and disagreement (or exhaustion) at `k` pin the
/// common-prefix count.
proof fn lemma_lcp_is(a: Seq<Seq<char>>, b: Seq<Seq<char>>, k: int)
    requires
        0 <= k <= a.len(),
        k <= b.len(),
        forall|j: int| 0 <= j < k ==> a[j] == b[j],
        k == a.len() || k == b.len() || a[k] != b[k],
    ensures
        lcp(a, b) == k,
    decreases a.len(),
{
    if k == 0 {
        if a.len() != 0 && b.len() != 0 {
            assert(a[0] != b[0]);
        }
    } else {
        assert(a[0] == b[0]);
        assert forall|j: int| 0 <= j < k - 1 implies a.drop_first()[j] == b.drop_first()[j] by {
            assert(a[j + 1] == b[j + 1]);
        }
        if k < a.len() && k < b.len() {
            assert(a.drop_first()[k - 1] == a[k]);
            assert(b.drop_first()[k - 1] == b[k]);
        }
        lemma_lcp_is(a.drop_first(), b.drop_first(), k - 1);
    }
}

/// A segment list agrees with itself everywhere.
pub proof fn lemma_lcp_self(a: Seq<Seq<char>>)
    ensures
        lcp(a, a) == a.len(),
    decreases a.len(),
{
    if a.len() != 0 {
        lemma_lcp_self(a.drop_first());
    }
}

/// Two identical sanitized paths synthesize to the full path as the common
/// part, with both entities reduced to `/1:` and the offset alone. Holds
/// for the paths this scheme is meant for: empty or beginning with `/`.
pub proof fn lemma_identical_paths(start_cfi: Seq<char>, end_cfi: Seq<char>, so: nat, eo: nat)
    requires
        sanitize(strip_offset(start_cfi)) == sanitize(strip_offset(end_cfi)),
        sanitize(strip_offset(start_cfi)).len() == 0 || sanitize(strip_offset(start_cfi))[0]
            == '/',
    ensures
        cfi_descriptor(start_cfi, end_cfi, so, eo) == "epubcfi("@ + sanitize(
            strip_offset(start_cfi),
        ) + ","@ + entity(Seq::<char>::empty(), so) + ","@ + entity(Seq::<char>::empty(), eo)
            + ")"@,
{
    let p = sanitize(strip_offset(start_cfi));
    let a = path_segments(p);
    lemma_lcp_self(a);
    assert(a.take(a.len() as int) =~= a);
    let common = join_slash(a);
    lemma_split_join(p);
    if p.len() == 0 {
        assert(first_char_from(p, '/', 0) is None);
        assert(a =~= Seq::<Seq<char>>::empty());
        assert(common =~= Seq::<char>::empty());
        assert(p.skip(0) =~= Seq::<char>::empty());
        assert(common == p);
    } else {
        lemma_leading_slash(p);
        assert(Seq::<char>::empty() + common =~= common);
        assert(common == p);
        assert(p.skip(p.len() as int) =~= Seq::<char>::empty());
    }
}

fn find_char(s: &str, c: char) -> (r: Option<usize>)
    ensures
        r matches Some(u) ==> first_char_from(s@, c, 0) == Some(u as int),
        r is None ==> first_char_from(s@, c, 0) is None,
{
    let n = s.unicode_len();
    let mut i: usize = 0;
    while i < n
        invariant
            n == s@.len(),
            i <= n,
            forall|j: int| 0 <= j < i ==> s@[j] != c,
        decreases n - i,
    {
        if s.get_char(i) == c {
            proof {
                lemma_first_char_from_correct(s@, c, 0);
            }
            return Some(i);
        }
        i = i + 1;
    }
    proof {
        lemma_first_char_from_correct(s@, c, 0);
    }
    None
}

fn rfind_char(s: &str, c: char) -> (r: Option<usize>)
    ensures
        r matches Some(u) ==> last_char_before(s@, c, s@.len() as int) == Some(u as int),
        r is None ==> last_char_before(s@, c, s@.len() as int) is None,
{
    let n = s.unicode_len();
    let mut i: usize = n;
    while i > 0
        invariant
            n == s@.len(),
            i <= n,
            last_char_before(s@, c, n as int) == last_char_before(s@, c, i as int),
        decreases i,
    {
        if s.get_char(i - 1) == c {
            return Some(i - 1);
        }
        i = i - 1;
    }
    None
}

/// The pieces of `s` between its `/` separators, in order.
fn split_slash_exec(s: &str) -> (r: Vec<String>)
    ensures
        r.deep_view() == split_slash(s@),
        r@.len() >= 1,
    decreases s@.len(),
{
    let n = s.unicode_len();
    match find_char(s, '/') {
        Some(i) => {
            proof {
                lemma_first_char_from_correct(s@, '/', 0);
            }
            let head = s.substring_char(0, i);
            let tail = s.substring_char(i + 1, n);
            proof {
                assert(tail@ =~= s@.skip(i + 1));
                assert(head@ =~= s@.take(i as int));
            }
            let rest = split_slash_exec(tail);
            let mut r: Vec<String> = Vec::new();
            r.push(head.to_owned());
            let m = rest.len();
            let mut j: usize = 0;
            while j < m
                invariant
                    m == rest@.len(),
                    j <= m,
                    r@.len() == j + 1,
                    r.deep_view() =~= seq![head@] + rest.deep_view().take(j as int),
                decreases m - j,
            {
                let ghost r_old = r@;
                let ghost rdv_old = r.deep_view();
                r.push(rest[j].clone());
                proof {
                    assert(r@ == r_old.push(rest@[j as int]));
                    assert forall|l: int| 0 <= l < r@.len() implies r.deep_view()[l] == (seq![
                        head@,
                    ] + rest.deep_view().take(j + 1))[l] by {
                        if l < r_old.len() {
                            assert(r@[l] == r_old[l]);
                            assert(rdv_old[l] == (seq![head@] + rest.deep_view().take(j as int))[l]);
                        } else {
                            assert(r@[l] == rest@[j as int]);
                        }
                    }
                    assert(r.deep_view() =~= seq![head@] + rest.deep_view().take(j + 1));
                }
                j = j + 1;
            }
            proof {
                assert(rest.deep_view().take(m as int) =~= rest.deep_view());
                assert(r.deep_view() =~= seq![s@.take(i as int)] + split_slash(s@.skip(i + 1)));
            }
            r
        },
        None => {
            let mut r: Vec<String> = Vec::new();
            r.push(s.to_owned());
            proof {
                assert(r.deep_view() =~= seq![s@]);
            }
            r
        },
    }
}

fn digit_str(d: usize) -> (r: &'static str)
    requires
        d < 10,
    ensures
        r@ == seq![digit_char(d as nat)],
{
    proof {
        reveal_strlit("0");
        reveal_strlit("1");
        reveal_strlit("2");
        reveal_strlit("3");
        reveal_strlit("4");
        reveal_strlit("5");
        reveal_strlit("6");
        reveal_strlit("7");
        reveal_strlit("8");
        reveal_strlit("9");
    }
    let r = if d == 0 {
        "0"
    } else if d == 1 {
        "1"
    } else if d == 2 {
        "2"
    } else if d == 3 {
        "3"
    } else if d == 4 {
        "4"
    } else if d == 5 {
        "5"
    } else if d == 6 {
        "6"
    } else if d == 7 {
        "7"
    } else if d == 8 {
        "8"
    } else {
        "9"
    };
    proof {
        assert(r@ =~= seq![digit_char(d as nat)]);
    }
    r
}

/// The decimal rendering of `n`.
fn usize_to_string(n: usize) -> (r: String)
    ensures
        r@ == dec_digits(n as nat),
    decreases n,
{
    if n < 10 {
        digit_str(n).to_owned()
    } else {
        let mut r = usize_to_string(n / 10);
        r.append(digit_str(n % 10));
        proof {
            assert(dec_digits((n / 10) as nat).push(digit_char((n % 10) as nat)) =~= dec_digits(
                (n / 10) as nat,
            ) + seq![digit_char((n % 10) as nat)]);
        }
        r
    }
}

/// Number of leading segments, the leading empty piece excluded, on which
/// the two split paths agree.
fn common_segments(pa: &Vec<String>, pb: &Vec<String>) -> (k: usize)
    requires
        pa@.len() >= 1,
        pb@.len() >= 1,
    ensures
        k == lcp(pa.deep_view().drop_first(), pb.deep_view().drop_first()),
{
    let ghost a = pa.deep_view().drop_first();
    let ghost b = pb.deep_view().drop_first();
    proof {
        assert(pa.deep_view().len() == pa@.len());
        assert(pb.deep_view().len() == pb@.len());
    }
    let na = pa.len();
    let nb = pb.len();
    let mut k: usize = 0;
    while k < na - 1 && k < nb - 1
        invariant
            na == pa@.len(),
            nb == pb@.len(),
            na >= 1,
            nb >= 1,
            a == pa.deep_view().drop_first(),
            b == pb.deep_view().drop_first(),
            k <= a.len(),
            k <= b.len(),
            forall|j: int| 0 <= j < k ==> a[j] == b[j],
        decreases na - k,
    {
        if pa[k + 1] == pb[k + 1] {
            proof {
                assert(a[k as int] == pa.deep_view()[k + 1]);
                assert(b[k as int] == pb.deep_view()[k + 1]);
            }
            k = k + 1;
        } else {
            proof {
                assert(a[k as int] != b[k as int]);
                lemma_lcp_is(a, b, k as int);
            }
            return k;
        }
    }
    proof {
        lemma_lcp_is(a, b, k as int);
    }
    k
}

/// Synthesize the range descriptor for a located match.
///
/// Each location is cut at its first `:` and then at its last `/`; the
/// common `/`-separated prefix of the two sanitized paths becomes the
/// common part, and each side contributes its remaining suffix, the fixed
/// `/1` segment, and its offset, in the form
/// `epubcfi(<common>,<suffix>/1:<start_offset>,<suffix>/1:<end_offset>)`.
#[verifier::rlimit(60)]
pub fn format_epub_cfi(start_cfi: &str, end_cfi: &str, start_offset: usize, end_offset: usize) -> (r:
    String)
    ensures
        r@ == cfi_descriptor(start_cfi@, end_cfi@, start_offset as nat, end_offset as nat),
{
    proof {
        reveal_strlit("");
    }
    // Split the locations into path and offset, discarding the offset.
    let start_path = match find_char(start_cfi, ':') {
        Some(i) => {
            proof {
                lemma_first_char_from_correct(start_cfi@, ':', 0);
            }
            start_cfi.substring_char(0, i)
        },
        None => start_cfi,
    };
    let end_path = match find_char(end_cfi, ':') {
        Some(i) => {
            proof {
                lemma_first_char_from_correct(end_cfi@, ':', 0);
            }
            end_cfi.substring_char(0, i)
        },
        None => end_cfi,
    };
    proof {
        assert(start_path@ =~= strip_offset(start_cfi@));
        assert(end_path@ =~= strip_offset(end_cfi@));
    }
    // Remove the trailing leaf segment of each path.
    let sanitized_start_path = match rfind_char(start_path, '/') {
        Some(j) => {
            proof {
                lemma_last_char_before_correct(start_path@, '/', start_path@.len() as int);
            }
            start_path.substring_char(0, j)
        },
        None => "",
    };
    let sanitized_end_path = match rfind_char(end_path, '/') {
        Some(j) => {
            proof {
                lemma_last_char_before_correct(end_path@, '/', end_path@.len() as int);
            }
            end_path.substring_char(0, j)
        },
        None => "",
    };
    let ghost sp = sanitize(strip_offset(start_cfi@));
    let ghost ep = sanitize(strip_offset(end_cfi@));
    proof {
        assert(sanitized_start_path@ =~= sp);
        assert(sanitized_end_path@ =~= ep);
    }
    // Find the common part of the paths, skipping the first (empty) piece.
    let pa = split_slash_exec(sanitized_start_path);
    let pb = split_slash_exec(sanitized_end_path);
    let ghost a = path_segments(sp);
    let ghost b = path_segments(ep);
    let k = common_segments(&pa, &pb);
    proof {
        lemma_lcp_correct(a, b);
        assert(join_slash(a.take(0)) == Seq::<char>::empty()) by {
            assert(a.take(0) =~= Seq::<Seq<char>>::empty());
        }
    }
    let mut common_part = String::new();
    let mut i: usize = 0;
    while i < k
        invariant
            k == lcp(a, b),
            a == pa.deep_view().drop_first(),
            b == pb.deep_view().drop_first(),
            pa@.len() >= 1,
            i <= k,
            k <= a.len(),
            common_part@ == join_slash(a.take(i as int)),
        decreases k - i,
    {
        proof {
            lemma_lcp_correct(a, b);
        }
        common_part.append("/");
        common_part.append(pa[i + 1].as_str());
        proof {
            reveal_strlit("/");
            assert("/"@ =~= seq!['/']);
            lemma_join_step(a, i as int);
            assert(a[i as int] == pa.deep_view()[i + 1]);
            assert(common_part@ == join_slash(a.take(i + 1)));
        }
        i = i + 1;
    }
    let ghost common = join_slash(a.take(lcp(a, b)));
    proof {
        assert(common_part@ == common);
        lemma_lcp_correct(a, b);
        lemma_split_join(sp);
        lemma_split_join(ep);
        lemma_join_take_skip(a, k as int);
        lemma_join_take_skip(b, k as int);
        assert(a.take(k as int) =~= b.take(k as int));
        assert(common.len() <= join_slash(a).len());
        assert(join_slash(a).len() <= sp.len()) by {
            assert(split_slash(sp)[0] + join_slash(a) == sp);
        }
        assert(common.len() <= join_slash(b).len());
        assert(join_slash(b).len() <= ep.len()) by {
            assert(split_slash(ep)[0] + join_slash(b) == ep);
        }
    }
    // Compute the dissimilar parts: the sanitized paths past the common
    // part's character length.
    let cl = common_part.as_str().unicode_len();
    let alen = sanitized_start_path.unicode_len();
    let blen = sanitized_end_path.unicode_len();
    let dissimilar_start = sanitized_start_path.substring_char(cl, alen);
    let dissimilar_end = sanitized_end_path.substring_char(cl, blen);
    proof {
        assert(dissimilar_start@ =~= sp.skip(cl as int));
        assert(dissimilar_end@ =~= ep.skip(cl as int));
    }
    // Format the final output.
    let out = render_descriptor(
        common_part.as_str(),
        dissimilar_start,
        dissimilar_end,
        start_offset,
        end_offset,
    );
    proof {
        assert(out@ == cfi_descriptor(
            start_cfi@,
            end_cfi@,
            start_offset as nat,
            end_offset as nat,
        ));
    }
    out
}

fn render_descriptor(common: &str, ds: &str, de: &str, so: usize, eo: usize) -> (r: String)
    ensures
        r@ == "epubcfi("@ + common@ + ","@ + entity(ds@, so as nat) + ","@ + entity(
            de@,
            eo as nat,
        ) + ")"@,
{
    let so_str = usize_to_string(so);
    let eo_str = usize_to_string(eo);
    let mut out = "epubcfi(".to_owned();
    out.append(common);
    out.append(",");
    out.append(ds);
    out.append("/1:");
    out.append(so_str.as_str());
    out.append(",");
    out.append(de);
    out.append("/1:");
    out.append(eo_str.as_str());
    out.append(")");
    proof {
        assert(out@ =~= "epubcfi("@ + common@ + ","@ + entity(ds@, so as nat) + ","@ + entity(
            de@,
            eo as nat,
        ) + ")"@);
    }
    out
}

} // verus!
