//! Byte-string primitives shared by the label index and the resolution
//! cascade: ASCII case folding, case-insensitive substring search, and the
//! query-label splitting rules (scientific-name candidate, first token).

use vstd::prelude::*;

verus! {

/// ASCII lower-casing of one byte; bytes outside `A..=Z` are unchanged.
pub open spec fn lower_byte(b: u8) -> u8 {
    if 0x41 <= b && b <= 0x5a {
        (b + 0x20) as u8
    } else {
        b
    }
}

/// `needle` occurs in `hay` at offset `k`, comparing case-insensitively.
pub open spec fn matches_at(hay: Seq<u8>, needle: Seq<u8>, k: int) -> bool {
    &&& 0 <= k
    &&& k + needle.len() <= hay.len()
    &&& forall|j: int| 0 <= j < needle.len() ==> lower_byte(hay[k + j]) == lower_byte(needle[j])
}

/// ASCII-case-insensitive substring containment, the meaning of a
/// `%needle%` pattern over the stored rows.
pub open spec fn contains_ci(hay: Seq<u8>, needle: Seq<u8>) -> bool {
    exists|k: int| matches_at(hay, needle, k)
}

fn lower_eq(a: u8, b: u8) -> (r: bool)
    ensures
        r == (lower_byte(a) == lower_byte(b)),
{
    let la: u8 = if 0x41 <= a && a <= 0x5a {
        a + 0x20
    } else {
        a
    };
    let lb: u8 = if 0x41 <= b && b <= 0x5a {
        b + 0x20
    } else {
        b
    };
    la == lb
}

fn match_here(hay: &Vec<u8>, needle: &Vec<u8>, k: usize) -> (r: bool)
    requires
        k + needle@.len() <= hay@.len(),
    ensures
        r == matches_at(hay@, needle@, k as int),
{
    let hlen: usize = hay.len();
    let mut j: usize = 0;
    while j < needle.len()
        invariant
            j <= needle@.len(),
            hlen == hay@.len(),
            k + needle@.len() <= hay@.len(),
            forall|j0: int| 0 <= j0 < j ==> lower_byte(hay@[k + j0]) == lower_byte(needle@[j0]),
        decreases needle@.len() - j,
    {
        assert(k + j < hay@.len());
        if !lower_eq(hay[k + j], needle[j]) {
            return false;
        }
        j += 1;
    }
    true
}

/// Whether `hay` contains `needle` as an ASCII-case-insensitive substring.
pub fn find_ci(hay: &Vec<u8>, needle: &Vec<u8>) -> (r: bool)
    ensures
        r == contains_ci(hay@, needle@),
{
    if needle.len() == 0 {
        assert(matches_at(hay@, needle@, 0));
        return true;
    }
    if needle.len() > hay.len() {
        assert(forall|k: int| !matches_at(hay@, needle@, k));
        return false;
    }
    let bound: usize = hay.len() - needle.len();
    let mut k: usize = 0;
    loop
        invariant
            k <= bound + 1,
            bound == hay@.len() - needle@.len(),
            1 <= needle@.len() <= hay@.len(),
            hay@.len() <= usize::MAX,
            forall|k0: int| 0 <= k0 < k ==> !matches_at(hay@, needle@, k0),
        decreases bound + 1 - k,
    {
        if k > bound {
            assert(forall|k0: int| !matches_at(hay@, needle@, k0));
            return false;
        }
        if match_here(hay, needle, k) {
            return true;
        }
        k += 1;
    }
}

/// Exact byte-string equality.
pub fn eq_bytes(a: &Vec<u8>, b: &Vec<u8>) -> (r: bool)
    ensures
        r == (a@ == b@),
{
    if a.len() != b.len() {
        return false;
    }
    let mut i: usize = 0;
    while i < a.len()
        invariant
            i <= a@.len(),
            a@.len() == b@.len(),
            forall|j: int| 0 <= j < i ==> a@[j] == b@[j],
        decreases a@.len() - i,
    {
        if a[i] != b[i] {
            return false;
        }
        i += 1;
    }
    assert(a@ =~= b@);
    true
}

/// Appends a copy of `src` to `dst`.
pub fn push_all(dst: &mut Vec<u8>, src: &Vec<u8>)
    ensures
        final(dst)@ == old(dst)@ + src@,
{
    let mut i: usize = 0;
    while i < src.len()
        invariant
            i <= src@.len(),
            dst@ == old(dst)@ + src@.subrange(0, i as int),
        decreases src@.len() - i,
    {
        dst.push(src[i]);
        i += 1;
        assert(src@.subrange(0, i as int) =~= src@.subrange(0, i - 1) + seq![src@[i - 1]]);
    }
    assert(src@.subrange(0, src@.len() as int) =~= src@);
}

/// Copies a byte string.
pub fn clone_bytes(v: &Vec<u8>) -> (r: Vec<u8>)
    ensures
        r@ == v@,
{
    let r = copy_range(v, 0, v.len());
    assert(v@.subrange(0, v@.len() as int) =~= v@);
    r
}

/// The longest prefix of `s` holding no byte that satisfies `stop`.
pub open spec fn take_until(s: Seq<u8>, stop: spec_fn(u8) -> bool) -> Seq<u8>
    decreases s.len(),
{
    if s.len() == 0 {
        s
    } else if stop(s[0]) {
        Seq::empty()
    } else {
        seq![s[0]] + take_until(s.drop_first(), stop)
    }
}

proof fn lemma_take_until(s: Seq<u8>, stop: spec_fn(u8) -> bool, i: int)
    requires
        0 <= i <= s.len(),
        forall|k: int| 0 <= k < i ==> !stop(#[trigger] s[k]),
        i == s.len() || stop(s[i]),
    ensures
        take_until(s, stop) == s.subrange(0, i),
    decreases i,
{
    if s.len() == 0 {
        assert(take_until(s, stop) =~= s.subrange(0, i));
    } else if i == 0 {
        assert(take_until(s, stop) =~= s.subrange(0, 0));
    } else {
        lemma_take_until(s.drop_first(), stop, i - 1);
        assert(take_until(s, stop) =~= s.subrange(0, i));
    }
}

/// First index at or after `from` whose byte satisfies `stop`, else `s.len()`.
fn scan_until(s: &Vec<u8>, from: usize, stop_underscore: bool, stop_ws: bool) -> (r: usize)
    requires
        from <= s@.len(),
    ensures
        from <= r <= s@.len(),
        forall|k: int| from <= k < r ==> !byte_stops(#[trigger] s@[k], stop_underscore, stop_ws),
        r == s@.len() || byte_stops(s@[r as int], stop_underscore, stop_ws),
{
    let mut i: usize = from;
    while i < s.len()
        invariant
            from <= i <= s@.len(),
            forall|k: int| from <= k < i ==> !byte_stops(#[trigger] s@[k], stop_underscore, stop_ws),
        decreases s@.len() - i,
    {
        let b = s[i];
        if (stop_underscore && b == 0x5f) || (stop_ws && (b == 0x20 || b == 0x09 || b == 0x0a || b
            == 0x0d)) {
            return i;
        }
        i += 1;
    }
    i
}

/// The stop condition used by the query-label splitting rules.
pub open spec fn byte_stops(b: u8, stop_underscore: bool, stop_ws: bool) -> bool {
    (stop_underscore && b == 0x5f) || (stop_ws && is_ws(b))
}

/// ASCII whitespace, the delimiters recognised when the candidate is tokenised.
pub open spec fn is_ws(b: u8) -> bool {
    b == 0x20 || b == 0x09 || b == 0x0a || b == 0x0d
}

/// The scientific-name candidate of a query label: the part before the
/// first underscore, or the whole label when it has none.
pub open spec fn sci_candidate(q: Seq<u8>) -> Seq<u8> {
    take_until(q, |b: u8| b == 0x5f)
}

/// Copies `s[from..to]` out as a fresh byte string.
pub fn copy_range(s: &Vec<u8>, from: usize, to: usize) -> (r: Vec<u8>)
    requires
        from <= to <= s@.len(),
    ensures
        r@ == s@.subrange(from as int, to as int),
{
    let mut out: Vec<u8> = Vec::new();
    let mut i: usize = from;
    while i < to
        invariant
            from <= i <= to <= s@.len(),
            out@ == s@.subrange(from as int, i as int),
        decreases to - i,
    {
        out.push(s[i]);
        i += 1;
        assert(s@.subrange(from as int, i as int) =~= s@.subrange(from as int, i - 1) + seq![
            s@[i - 1],
        ]);
    }
    out
}

/// Computes the scientific-name candidate of a query label.
pub fn candidate_of(q: &Vec<u8>) -> (r: Vec<u8>)
    ensures
        r@ == sci_candidate(q@),
{
    let i = scan_until(q, 0, true, false);
    proof {
        lemma_take_until(q@, |b: u8| b == 0x5f, i as int);
    }
    copy_range(q, 0, i)
}

/// The whitespace that `s` starts with, dropped.
pub open spec fn drop_ws(s: Seq<u8>) -> Seq<u8>
    decreases s.len(),
{
    if s.len() > 0 && is_ws(s[0]) {
        drop_ws(s.drop_first())
    } else {
        s
    }
}

proof fn lemma_drop_ws(s: Seq<u8>, i: int)
    requires
        0 <= i <= s.len(),
        forall|k: int| 0 <= k < i ==> is_ws(#[trigger] s[k]),
        i == s.len() || !is_ws(s[i]),
    ensures
        drop_ws(s) == s.subrange(i, s.len() as int),
    decreases i,
{
    if i == 0 {
        assert(drop_ws(s) =~= s.subrange(0, s.len() as int));
    } else {
        lemma_drop_ws(s.drop_first(), i - 1);
        assert(s.drop_first().subrange(i - 1, s.drop_first().len() as int) =~= s.subrange(
            i,
            s.len() as int,
        ));
    }
}

/// The first whitespace-delimited token of `s`; when `s` holds no such
/// token (it is empty or all whitespace), `s` itself.
pub open spec fn first_token(s: Seq<u8>) -> Seq<u8> {
    if drop_ws(s).len() == 0 {
        s
    } else {
        take_until(drop_ws(s), |b: u8| is_ws(b))
    }
}

fn skip_ws_idx(s: &Vec<u8>) -> (r: usize)
    ensures
        r <= s@.len(),
        forall|k: int| 0 <= k < r ==> is_ws(#[trigger] s@[k]),
        r == s@.len() || !is_ws(s@[r as int]),
{
    let mut i: usize = 0;
    while i < s.len()
        invariant
            i <= s@.len(),
            forall|k: int| 0 <= k < i ==> is_ws(#[trigger] s@[k]),
        decreases s@.len() - i,
    {
        let b = s[i];
        if !(b == 0x20 || b == 0x09 || b == 0x0a || b == 0x0d) {
            return i;
        }
        i += 1;
    }
    i
}

/// Computes the first whitespace-delimited token of a candidate.
pub fn first_token_of(s: &Vec<u8>) -> (r: Vec<u8>)
    ensures
        r@ == first_token(s@),
{
    let a = skip_ws_idx(s);
    proof {
        lemma_drop_ws(s@, a as int);
    }
    if a == s.len() {
        assert(drop_ws(s@).len() == 0);
        return copy_range(s, 0, s.len());
    }
    assert(!is_ws(s@[a as int]));
    assert(drop_ws(s@) == s@.subrange(a as int, s@.len() as int));
    assert(drop_ws(s@).len() > 0);
    let e = scan_until(s, a, false, true);
    proof {
        let t = drop_ws(s@);
        assert forall|k: int| 0 <= k < e - a implies !is_ws(#[trigger] t[k]) by {
            assert(t[k] == s@[a + k]);
        }
        if e < s@.len() {
            assert(t[e - a] == s@[e as int]);
        }
        lemma_take_until(t, |b: u8| is_ws(b), e - a);
        assert(t.subrange(0, e - a) =~= s@.subrange(a as int, e as int));
    }
    copy_range(s, a, e)
}

/// The fragment of a common name before the first `", "` separator; the
/// whole name when it has none.
pub open spec fn name_fragment(s: Seq<u8>) -> Seq<u8>
    decreases s.len(),
{
    if s.len() < 2 {
        s
    } else if s[0] == 0x2c && s[1] == 0x20 {
        Seq::empty()
    } else {
        seq![s[0]] + name_fragment(s.drop_first())
    }
}

proof fn lemma_name_fragment(s: Seq<u8>, i: int)
    requires
        0 <= i,
        i + 2 <= s.len(),
        forall|k: int| 0 <= k < i ==> !(#[trigger] s[k] == 0x2c && s[k + 1] == 0x20),
        s[i] == 0x2c && s[i + 1] == 0x20,
    ensures
        name_fragment(s) == s.subrange(0, i),
    decreases i,
{
    if i == 0 {
        assert(name_fragment(s) =~= s.subrange(0, 0));
    } else {
        let t = s.drop_first();
        assert forall|k: int| 0 <= k < i - 1 implies !(#[trigger] t[k] == 0x2c && t[k + 1] == 0x20) by {
            assert(t[k] == s[k + 1] && t[k + 1] == s[k + 2]);
        }
        assert(t[i - 1] == 0x2c && t[i] == 0x20);
        lemma_name_fragment(t, i - 1);
        assert(name_fragment(s) =~= s.subrange(0, i));
    }
}

proof fn lemma_name_fragment_whole(s: Seq<u8>, )
    requires
        forall|k: int| 0 <= k && k + 2 <= s.len() ==> !(#[trigger] s[k] == 0x2c && s[k + 1] == 0x20),
    ensures
        name_fragment(s) == s,
    decreases s.len(),
{
    if s.len() < 2 {
    } else {
        let t = s.drop_first();
        assert forall|k: int| 0 <= k && k + 2 <= t.len() implies !(#[trigger] t[k] == 0x2c && t[k + 1]
            == 0x20) by {
            assert(t[k] == s[k + 1] && t[k + 1] == s[k + 2]);
        }
        lemma_name_fragment_whole(t);
        assert(name_fragment(s) =~= s);
    }
}

/// Computes the common-name fragment used in the derived compound label.
pub fn name_fragment_of(s: &Vec<u8>) -> (r: Vec<u8>)
    ensures
        r@ == name_fragment(s@),
{
    if s.len() < 2 {
        proof {
            if s@.len() < 2 {
                assert forall|k: int| 0 <= k && k + 2 <= s@.len() implies !(#[trigger] s@[k] == 0x2c && s@[k
                    + 1] == 0x20) by {}
            }
        }
        assert(name_fragment(s@) == s@);
        return copy_range(s, 0, s.len());
    }
    let mut i: usize = 0;
    while i < s.len() - 1
        invariant
            s@.len() >= 2,
            i <= s@.len() - 1,
            forall|k: int| 0 <= k < i ==> !(#[trigger] s@[k] == 0x2c && s@[k + 1] == 0x20),
        decreases s@.len() - i,
    {
        if s[i] == 0x2c && s[i + 1] == 0x20 {
            proof {
                lemma_name_fragment(s@, i as int);
            }
            return copy_range(s, 0, i);
        }
        i += 1;
    }
    proof {
        assert forall|k: int| 0 <= k && k + 2 <= s@.len() implies !(#[trigger] s@[k] == 0x2c && s@[k + 1]
            == 0x20) by {
            assert(k < i);
        }
        lemma_name_fragment_whole(s@);
    }
    copy_range(s, 0, s.len())
}

/// The comma-joined form of a list of names, `", "` between items.
pub open spec fn join_names(items: Seq<Seq<u8>>) -> Seq<u8>
    decreases items.len(),
{
    if items.len() == 0 {
        Seq::empty()
    } else if items.len() == 1 {
        items[0]
    } else {
        items[0] + seq![0x2cu8, 0x20u8] + join_names(items.drop_first())
    }
}

proof fn lemma_join_names_push(items: Seq<Seq<u8>>, x: Seq<u8>)
    ensures
        items.len() == 0 ==> join_names(items.push(x)) == x,
        items.len() > 0 ==> join_names(items.push(x)) == join_names(items) + seq![
            0x2cu8,
            0x20u8,
        ] + x,
    decreases items.len(),
{
    if items.len() == 0 {
        assert(items.push(x).len() == 1);
        assert(items.push(x)[0] == x);
        assert(join_names(items.push(x)) == x);
    } else if items.len() == 1 {
        assert(items.push(x).drop_first() =~= seq![x]);
        assert(join_names(seq![x]) == seq![x][0]);
        assert(join_names(items.push(x)) == items.push(x)[0] + seq![0x2cu8, 0x20u8] + join_names(
            items.push(x).drop_first(),
        ));
        assert(items.push(x)[0] == items[0]);
        assert(join_names(items) == items[0]);
        assert(join_names(items.push(x)) =~= join_names(items) + seq![0x2cu8, 0x20u8] + x);
    } else {
        lemma_join_names_push(items.drop_first(), x);
        assert(items.push(x).drop_first() =~= items.drop_first().push(x));
        assert(join_names(items.push(x)) =~= join_names(items) + seq![0x2cu8, 0x20u8] + x);
    }
}

/// Joins a list of names with `", "`.
pub fn join_names_of(items: &Vec<Vec<u8>>) -> (r: Vec<u8>)
    ensures
        r@ == join_names(Seq::new(items@.len(), |i: int| items@[i]@)),
{
    let ghost model: Seq<Seq<u8>> = Seq::new(items@.len(), |i: int| items@[i]@);
    let mut out: Vec<u8> = Vec::new();
    let mut i: usize = 0;
    while i < items.len()
        invariant
            i <= items@.len(),
            model == Seq::new(items@.len(), |j: int| items@[j]@),
            out@ == join_names(model.subrange(0, i as int)),
        decreases items@.len() - i,
    {
        if i > 0 {
            out.push(0x2c);
            out.push(0x20);
        }
        push_all(&mut out, &items[i]);
        proof {
            assert(model.subrange(0, i + 1) =~= model.subrange(0, i as int).push(model[i as int]));
            lemma_join_names_push(model.subrange(0, i as int), model[i as int]);
        }
        i += 1;
    }
    assert(model.subrange(0, model.len() as int) =~= model);
    out
}

} // verus!
