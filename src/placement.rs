use vstd::prelude::*;
use vstd::utf8::encode_utf8;
use vstd::string::StrSliceExecFns;
use crate::digest::{md5_of, md5_digest};

verus! {

/// Strict lexicographic order on byte strings, the order of `[u8]`.
pub open spec fn lex_lt(a: Seq<u8>, b: Seq<u8>) -> bool
    decreases a.len(),
{
    if a.len() == 0 {
        b.len() > 0
    } else if b.len() == 0 {
        false
    } else if a[0] != b[0] {
        a[0] < b[0]
    } else {
        lex_lt(a.drop_first(), b.drop_first())
    }
}

/// Compares two digests in lexicographic order.
fn digest_lt(a: &Vec<u8>, b: &Vec<u8>) -> (r: bool)
    ensures
        r == lex_lt(a@, b@),
{
    let mut i: usize = 0;
    assert(a@.skip(0) =~= a@);
    assert(b@.skip(0) =~= b@);
    while i < a.len() && i < b.len()
        invariant
            i <= a@.len(),
            i <= b@.len(),
            lex_lt(a@, b@) == lex_lt(a@.skip(i as int), b@.skip(i as int)),
        decreases a@.len() - i,
    {
        if a[i] != b[i] {
            return a[i] < b[i];
        }
        assert(a@.skip(i as int).drop_first() =~= a@.skip(i + 1));
        assert(b@.skip(i as int).drop_first() =~= b@.skip(i + 1));
        i = i + 1;
    }
    i < b.len()
}


/// The identifiers of a list of volumes, as character strings.
pub open spec fn names(v: Seq<String>) -> Seq<Seq<char>> {
    v.map_values(|s: String| s@)
}

/// Score of volume `v` for `key`: the digest of the volume's bytes followed by
/// the key's bytes. Lower scores come first.
pub open spec fn score(v: Seq<char>, key: Seq<char>) -> Seq<u8> {
    md5_of(encode_utf8(v) + encode_utf8(key))
}

/// Each volume paired with its score for `key`.
pub open spec fn scored(key: Seq<char>, vs: Seq<Seq<char>>) -> Seq<(Seq<u8>, Seq<char>)> {
    vs.map_values(|v: Seq<char>| (score(v, key), v))
}

/// Scores and volumes, as byte strings and character strings.
pub open spec fn scored_view(v: Seq<(Vec<u8>, String)>) -> Seq<(Seq<u8>, Seq<char>)> {
    v.map_values(|p: (Vec<u8>, String)| (p.0@, p.1@))
}

/// Position of the first pair of least score among the first `n` of `ps`.
pub open spec fn first_min(ps: Seq<(Seq<u8>, Seq<char>)>, n: int) -> int
    decreases n,
{
    if n <= 1 {
        0
    } else {
        let j = first_min(ps, n - 1);
        if lex_lt(ps[n - 1].0, ps[j].0) {
            n - 1
        } else {
            j
        }
    }
}

/// The volumes of the `k` pairs of least score, least first; among pairs of
/// equal score the earlier comes first.
pub open spec fn select_lowest(ps: Seq<(Seq<u8>, Seq<char>)>, k: nat) -> Seq<Seq<char>>
    decreases k,
{
    if k == 0 || ps.len() == 0 {
        seq![]
    } else {
        let i = first_min(ps, ps.len() as int);
        seq![ps[i].1] + select_lowest(ps.remove(i), (k - 1) as nat)
    }
}

/// Rendezvous placement of `key` on `k` of the volumes `vs`.
pub open spec fn place(key: Seq<char>, vs: Seq<Seq<char>>, k: nat) -> Seq<Seq<char>> {
    select_lowest(scored(key, vs), k)
}

/// The bytes that are hashed to score `volume` for `key`.
fn score_input(volume: &String, key: &str) -> (r: Vec<u8>)
    ensures
        r@ == encode_utf8(volume@) + encode_utf8(key@),
{
    let mut buf = volume.as_str().as_bytes_vec();
    let mut tail = key.as_bytes_vec();
    buf.append(&mut tail);
    buf
}

/// The volumes of the `k` pairs of least score (all of them when there are
/// fewer), ordered by score; pairs of equal score keep their order.
pub fn select_lowest_scores(scored: Vec<(Vec<u8>, String)>, k: usize) -> (r: Vec<String>)
    ensures
        names(r@) == select_lowest(scored_view(scored@), k as nat),
{
    let mut rest = scored;
    let mut out: Vec<String> = Vec::new();
    while out.len() < k && rest.len() > 0
        invariant
            out@.len() <= k,
            names(out@) + select_lowest(scored_view(rest@), (k - out@.len()) as nat)
                == select_lowest(scored_view(scored@), k as nat),
        decreases rest@.len(),
    {
        let ghost ps = scored_view(rest@);
        let mut best: usize = 0;
        let mut j: usize = 1;
        while j < rest.len()
            invariant
                1 <= j <= rest@.len(),
                ps == scored_view(rest@),
                best < j,
                best == first_min(ps, j as int),
            decreases rest@.len() - j,
        {
            if digest_lt(&rest[j].0, &rest[best].0) {
                best = j;
            }
            j = j + 1;
        }
        let (_, v) = rest.remove(best);
        proof {
            assert(scored_view(rest@) =~= ps.remove(best as int));
            let m = (k - out@.len()) as nat;
            assert(select_lowest(ps, m) == seq![ps[best as int].1] + select_lowest(ps.remove(best as int), (m - 1) as nat));
        }
        let ghost before = out@;
        out.push(v);
        proof {
            assert(names(out@) =~= names(before) + seq![v@]);
        }
    }
    proof {
        assert(select_lowest(scored_view(rest@), (k - out@.len()) as nat) == Seq::<Seq<char>>::empty());
        assert(names(out@) + Seq::<Seq<char>>::empty() =~= names(out@));
    }
    out
}

/// Assigns `key` to its ordered replica list: the `k` volumes of least score,
/// or all of them when there are fewer than `k`.
pub fn key2volumes(key: &str, volumes: &[String], k: usize) -> (r: Vec<String>)
    ensures
        names(r@) == place(key@, names(volumes@), k as nat),
{
    let mut pairs: Vec<(Vec<u8>, String)> = Vec::new();
    let mut i: usize = 0;
    while i < volumes.len()
        invariant
            i <= volumes@.len(),
            pairs@.len() == i,
            forall|j: int| 0 <= j < i ==> #[trigger] pairs@[j].1@ == volumes@[j]@,
            forall|j: int| 0 <= j < i ==> #[trigger] pairs@[j].0@ == score(volumes@[j]@, key@),
        decreases volumes@.len() - i,
    {
        let v = volumes[i].clone();
        let input = score_input(&v, key);
        pairs.push((md5_digest(input.as_slice()), v));
        i = i + 1;
    }
    assert(scored_view(pairs@) =~= scored(key@, names(volumes@)));
    select_lowest_scores(pairs, k)
}

proof fn lemma_first_min_bounds(ps: Seq<(Seq<u8>, Seq<char>)>, n: int)
    requires
        1 <= n,
    ensures
        0 <= first_min(ps, n) < n,
    decreases n,
{
    if n > 1 {
        lemma_first_min_bounds(ps, n - 1);
    }
}

/// Placement is deterministic: for the same key, volumes and replica count it
/// gives the same ordered list.
pub proof fn lemma_place_deterministic(
    key: Seq<char>,
    vs: Seq<Seq<char>>,
    k: nat,
    r1: Seq<Seq<char>>,
    r2: Seq<Seq<char>>,
)
    requires
        r1 == place(key, vs, k),
        r2 == place(key, vs, k),
    ensures
        r1 == r2,
{
}

proof fn lemma_select_shape(ps: Seq<(Seq<u8>, Seq<char>)>, k: nat)
    ensures
        select_lowest(ps, k).len() == if k < ps.len() { k } else { ps.len() },
        forall|t: int| 0 <= t < select_lowest(ps, k).len() ==> exists|u: int|
            0 <= u < ps.len() && ps[u].1 == #[trigger] select_lowest(ps, k)[t],
        ps.map_values(|p: (Seq<u8>, Seq<char>)| p.1).no_duplicates() ==> select_lowest(ps, k).no_duplicates(),
    decreases k,
{
    if k == 0 || ps.len() == 0 {
    } else {
        let i = first_min(ps, ps.len() as int);
        lemma_first_min_bounds(ps, ps.len() as int);
        let rest = ps.remove(i);
        lemma_select_shape(rest, (k - 1) as nat);
        let tail = select_lowest(rest, (k - 1) as nat);
        let p = select_lowest(ps, k);
        assert(p == seq![ps[i].1] + tail);
        assert forall|t: int| 0 <= t < p.len() implies exists|u: int| 0 <= u < ps.len() && ps[u].1 == #[trigger] p[t] by {
            if t == 0 {
                assert(ps[i].1 == p[0]);
            } else {
                assert(p[t] == tail[t - 1]);
                let u = choose|u: int| 0 <= u < rest.len() && rest[u].1 == tail[t - 1];
                let u2 = if u < i { u } else { u + 1 };
                assert(ps[u2].1 == p[t]);
            }
        }
        let names_of = ps.map_values(|p: (Seq<u8>, Seq<char>)| p.1);
        if names_of.no_duplicates() {
            let rest_names = rest.map_values(|p: (Seq<u8>, Seq<char>)| p.1);
            assert(rest_names.no_duplicates()) by {
                assert forall|a: int, b: int|
                    0 <= a < rest.len() && 0 <= b < rest.len() && a != b implies rest_names[a] != rest_names[b] by {
                    let a2 = if a < i { a } else { a + 1 };
                    let b2 = if b < i { b } else { b + 1 };
                    assert(rest_names[a] == names_of[a2] && rest_names[b] == names_of[b2]);
                }
            }
            assert forall|a: int, b: int|
                0 <= a < p.len() && 0 <= b < p.len() && a != b implies p[a] != p[b] by {
                if a == 0 || b == 0 {
                    let t = if a == 0 { b } else { a };
                    let u = choose|u: int| 0 <= u < rest.len() && rest[u].1 == #[trigger] tail[t - 1];
                    let u2 = if u < i { u } else { u + 1 };
                    assert(names_of[u2] == tail[t - 1]);
                    assert(names_of[i] == p[0]);
                } else {
                    assert(p[a] == tail[a - 1] && p[b] == tail[b - 1]);
                }
            }
        }
    }
}

/// Placement gives `min(k, |vs|)` volumes, each one of `vs`, and no volume twice
/// when `vs` names none twice.
pub proof fn lemma_place_shape(key: Seq<char>, vs: Seq<Seq<char>>, k: nat)
    ensures
        place(key, vs, k).len() == if k < vs.len() { k } else { vs.len() },
        forall|t: int| 0 <= t < place(key, vs, k).len() ==> vs.contains(#[trigger] place(key, vs, k)[t]),
        vs.no_duplicates() ==> place(key, vs, k).no_duplicates(),
{
    let ps = scored(key, vs);
    lemma_select_shape(ps, k);
    assert(ps.map_values(|p: (Seq<u8>, Seq<char>)| p.1) =~= vs);
    let p = place(key, vs, k);
    assert forall|t: int| 0 <= t < p.len() implies vs.contains(#[trigger] p[t]) by {
        let u = choose|u: int| 0 <= u < ps.len() && ps[u].1 == #[trigger] p[t];
        assert(vs[u] == p[t]);
    }
}

proof fn lemma_lex_irreflexive(a: Seq<u8>)
    ensures
        !lex_lt(a, a),
    decreases a.len(),
{
    if a.len() > 0 {
        lemma_lex_irreflexive(a.drop_first());
    }
}

proof fn lemma_lex_transitive(a: Seq<u8>, b: Seq<u8>, c: Seq<u8>)
    requires
        lex_lt(a, b),
        lex_lt(b, c),
    ensures
        lex_lt(a, c),
    decreases a.len(),
{
    if a.len() > 0 && b.len() > 0 && c.len() > 0 && a[0] == b[0] && b[0] == c[0] {
        lemma_lex_transitive(a.drop_first(), b.drop_first(), c.drop_first());
    }
}

proof fn lemma_lex_total(a: Seq<u8>, b: Seq<u8>)
    requires
        a != b,
    ensures
        lex_lt(a, b) || lex_lt(b, a),
    decreases a.len(),
{
    if a.len() == 0 && b.len() == 0 {
        assert(a =~= b);
    } else if a.len() > 0 && b.len() > 0 && a[0] == b[0] {
        if a.drop_first() == b.drop_first() {
            assert(a =~= seq![a[0]] + a.drop_first());
            assert(b =~= seq![b[0]] + b.drop_first());
        } else {
            lemma_lex_total(a.drop_first(), b.drop_first());
        }
    }
}

/// `m` is the first position among the first `n` of `ps` whose score is least.
spec fn is_first_min(ps: Seq<(Seq<u8>, Seq<char>)>, n: int, m: int) -> bool {
    &&& 0 <= m < n
    &&& forall|t: int| 0 <= t < n ==> !lex_lt(#[trigger] ps[t].0, ps[m].0)
    &&& forall|t: int| 0 <= t < m ==> #[trigger] ps[t].0 != ps[m].0
}

proof fn lemma_first_min_is_first_min(ps: Seq<(Seq<u8>, Seq<char>)>, n: int)
    requires
        1 <= n,
    ensures
        is_first_min(ps, n, first_min(ps, n)),
    decreases n,
{
    if n == 1 {
        lemma_lex_irreflexive(ps[0].0);
    } else {
        let j = first_min(ps, n - 1);
        lemma_first_min_is_first_min(ps, n - 1);
        let sj = ps[j].0;
        let sl = ps[n - 1].0;
        if lex_lt(sl, sj) {
            assert forall|t: int| 0 <= t < n implies !lex_lt(#[trigger] ps[t].0, sl) by {
                if t == n - 1 {
                    lemma_lex_irreflexive(sl);
                } else if lex_lt(ps[t].0, sl) {
                    lemma_lex_transitive(ps[t].0, sl, sj);
                }
            }
        } else {
            lemma_lex_irreflexive(sj);
        }
    }
}

proof fn lemma_first_min_unique(ps: Seq<(Seq<u8>, Seq<char>)>, n: int, m1: int, m2: int)
    requires
        is_first_min(ps, n, m1),
        is_first_min(ps, n, m2),
    ensures
        m1 == m2,
{
    if m1 != m2 {
        let (a, b) = if m1 < m2 { (m1, m2) } else { (m2, m1) };
        assert(ps[a].0 != ps[b].0);
        lemma_lex_total(ps[a].0, ps[b].0);
    }
}

proof fn lemma_select_remove_unselected(ps: Seq<(Seq<u8>, Seq<char>)>, k: nat, j: int)
    requires
        0 <= j < ps.len(),
        !select_lowest(ps, k).contains(ps[j].1),
    ensures
        select_lowest(ps.remove(j), k) == select_lowest(ps, k),
    decreases k,
{
    if k > 0 {
        let n = ps.len() as int;
        let i = first_min(ps, n);
        lemma_first_min_is_first_min(ps, n);
        let p = select_lowest(ps, k);
        assert(p[0] == ps[i].1);
        assert(i != j);
        let ws = ps.remove(j);
        let mi = if i < j { i } else { i - 1 };
        assert(ws[mi] == ps[i]);
        assert(is_first_min(ws, n - 1, mi)) by {
            assert forall|t: int| 0 <= t < n - 1 implies !lex_lt(#[trigger] ws[t].0, ws[mi].0) by {
                let u = if t < j { t } else { t + 1 };
                assert(ws[t] == ps[u]);
            }
            assert forall|t: int| 0 <= t < mi implies #[trigger] ws[t].0 != ws[mi].0 by {
                let u = if t < j { t } else { t + 1 };
                assert(ws[t] == ps[u]);
            }
        }
        lemma_first_min_is_first_min(ws, n - 1);
        lemma_first_min_unique(ws, n - 1, first_min(ws, n - 1), mi);
        let rest = ps.remove(i);
        let j2 = if j < i { j } else { j - 1 };
        assert(rest[j2] == ps[j]);
        assert(ws.remove(mi) =~= rest.remove(j2));
        let tail = select_lowest(rest, (k - 1) as nat);
        assert(p == seq![ps[i].1] + tail);
        assert(!tail.contains(rest[j2].1)) by {
            if tail.contains(rest[j2].1) {
                let t = choose|t: int| 0 <= t < tail.len() && tail[t] == rest[j2].1;
                assert(p[t + 1] == tail[t]);
            }
        }
        lemma_select_remove_unselected(rest, (k - 1) as nat, j2);
    }
}

/// Removing a volume that a key is not placed on leaves the key's placement
/// as it was: the relative order of the other volumes does not change.
pub proof fn lemma_place_remove_unselected(key: Seq<char>, vs: Seq<Seq<char>>, k: nat, j: int)
    requires
        0 <= j < vs.len(),
        !place(key, vs, k).contains(vs[j]),
    ensures
        place(key, vs.remove(j), k) == place(key, vs, k),
{
    assert(scored(key, vs.remove(j)) =~= scored(key, vs).remove(j));
    lemma_select_remove_unselected(scored(key, vs), k, j);
}

/// Adding a volume that a key is not placed on leaves the key's placement as
/// it was.
pub proof fn lemma_place_add_unselected(key: Seq<char>, vs: Seq<Seq<char>>, k: nat, pos: int, w: Seq<char>)
    requires
        0 <= pos <= vs.len(),
        !place(key, vs.insert(pos, w), k).contains(w),
    ensures
        place(key, vs.insert(pos, w), k) == place(key, vs, k),
{
    let ws = vs.insert(pos, w);
    assert(ws[pos] == w);
    assert(ws.remove(pos) =~= vs);
    lemma_place_remove_unselected(key, ws, k, pos);
}

/// `s` with every occurrence of `w` taken out, the rest in order.
pub open spec fn without(s: Seq<Seq<char>>, w: Seq<char>) -> Seq<Seq<char>>
    decreases s.len(),
{
    if s.len() == 0 {
        seq![]
    } else if s[0] == w {
        without(s.drop_first(), w)
    } else {
        seq![s[0]] + without(s.drop_first(), w)
    }
}

/// The first `n` elements of `s`, or all of them when there are fewer.
pub open spec fn first_n(s: Seq<Seq<char>>, n: nat) -> Seq<Seq<char>> {
    if n < s.len() {
        s.take(n as int)
    } else {
        s
    }
}

proof fn lemma_without_absent(s: Seq<Seq<char>>, w: Seq<char>)
    requires
        !s.contains(w),
    ensures
        without(s, w) == s,
    decreases s.len(),
{
    if s.len() > 0 {
        assert(!s.drop_first().contains(w)) by {
            if s.drop_first().contains(w) {
                let t = choose|t: int| 0 <= t < s.drop_first().len() && s.drop_first()[t] == w;
                assert(s[t + 1] == w);
            }
        }
        lemma_without_absent(s.drop_first(), w);
        assert(s =~= seq![s[0]] + s.drop_first());
    }
}

proof fn lemma_without_len(s: Seq<Seq<char>>, w: Seq<char>)
    ensures
        without(s, w).len() <= s.len(),
    decreases s.len(),
{
    if s.len() > 0 {
        lemma_without_len(s.drop_first(), w);
    }
}

proof fn lemma_select_remove(ps: Seq<(Seq<u8>, Seq<char>)>, k: nat, j: int)
    requires
        0 <= j < ps.len(),
        forall|t: int| 0 <= t < ps.len() && t != j ==> #[trigger] ps[t].1 != ps[j].1,
    ensures
        select_lowest(ps.remove(j), k) == first_n(without(select_lowest(ps, k + 1), ps[j].1), k),
    decreases k,
{
    let w = ps[j].1;
    let n = ps.len() as int;
    let i = first_min(ps, n);
    lemma_first_min_is_first_min(ps, n);
    let rest = ps.remove(i);
    let tail = select_lowest(rest, k);
    let big = select_lowest(ps, k + 1);
    assert(big == seq![ps[i].1] + tail);
    assert(big.drop_first() =~= tail);
    if i == j {
        assert(rest =~= ps.remove(j));
        lemma_select_shape(rest, k);
        assert(!tail.contains(w)) by {
            if tail.contains(w) {
                let t = choose|t: int| 0 <= t < tail.len() && tail[t] == w;
                let u = choose|u: int| 0 <= u < rest.len() && rest[u].1 == #[trigger] tail[t];
                let u2 = if u < i { u } else { u + 1 };
                assert(ps[u2].1 == w);
            }
        }
        lemma_without_absent(tail, w);
        assert(without(big, w) == tail);
        assert(first_n(tail, k) == tail);
    } else {
        assert(ps[i].1 != w);
        assert(without(big, w) == seq![ps[i].1] + without(tail, w));
        if k == 0 {
            assert(first_n(without(big, w), 0) =~= Seq::<Seq<char>>::empty());
        } else {
            let ws = ps.remove(j);
            let mi = if i < j { i } else { i - 1 };
            assert(ws[mi] == ps[i]);
            assert(is_first_min(ws, n - 1, mi)) by {
                assert forall|t: int| 0 <= t < n - 1 implies !lex_lt(#[trigger] ws[t].0, ws[mi].0) by {
                    let u = if t < j { t } else { t + 1 };
                    assert(ws[t] == ps[u]);
                }
                assert forall|t: int| 0 <= t < mi implies #[trigger] ws[t].0 != ws[mi].0 by {
                    let u = if t < j { t } else { t + 1 };
                    assert(ws[t] == ps[u]);
                }
            }
            lemma_first_min_is_first_min(ws, n - 1);
            lemma_first_min_unique(ws, n - 1, first_min(ws, n - 1), mi);
            let j2 = if j < i { j } else { j - 1 };
            assert(rest[j2] == ps[j]);
            assert(ws.remove(mi) =~= rest.remove(j2));
            assert forall|t: int| 0 <= t < rest.len() && t != j2 implies #[trigger] rest[t].1 != rest[j2].1 by {
                let u = if t < i { t } else { t + 1 };
                assert(rest[t] == ps[u]);
            }
            lemma_select_remove(rest, (k - 1) as nat, j2);
            assert(select_lowest(ws, k) == seq![ps[i].1] + select_lowest(rest.remove(j2), (k - 1) as nat));
            let x = without(tail, w);
            if k - 1 < x.len() {
                assert((seq![ps[i].1] + x).take(k as int) =~= seq![ps[i].1] + x.take(k - 1));
            }
            assert(first_n(seq![ps[i].1] + x, k) == seq![ps[i].1] + first_n(x, (k - 1) as nat));
        }
    }
}

/// Removing a volume keeps the relative order of the others: the placement
/// without `vs[j]` is the placement of one more replica with `vs[j]` taken
/// out, cut to `k`.
pub proof fn lemma_place_remove(key: Seq<char>, vs: Seq<Seq<char>>, k: nat, j: int)
    requires
        0 <= j < vs.len(),
        vs.no_duplicates(),
    ensures
        place(key, vs.remove(j), k) == first_n(without(place(key, vs, k + 1), vs[j]), k),
{
    let ps = scored(key, vs);
    assert(scored(key, vs.remove(j)) =~= ps.remove(j));
    assert forall|t: int| 0 <= t < ps.len() && t != j implies #[trigger] ps[t].1 != ps[j].1 by {
        assert(ps[t].1 == vs[t] && ps[j].1 == vs[j]);
    }
    lemma_select_remove(ps, k, j);
}

/// Adding a volume `w` keeps the relative order of the others: with `w`
/// taken out, the new placement is the old one, or the old one without its
/// last volume where `w` displaced it.
pub proof fn lemma_place_add(key: Seq<char>, vs: Seq<Seq<char>>, k: nat, pos: int, w: Seq<char>)
    requires
        0 <= pos <= vs.len(),
        vs.no_duplicates(),
        !vs.contains(w),
    ensures
        place(key, vs, k) == first_n(without(place(key, vs.insert(pos, w), k + 1), w), k),
        ({
            let old_p = place(key, vs, k);
            let new_p = without(place(key, vs.insert(pos, w), k), w);
            &&& new_p.len() <= old_p.len()
            &&& new_p == old_p.take(new_p.len() as int)
        }),
{
    let ws = vs.insert(pos, w);
    assert(ws[pos] == w);
    assert(ws.remove(pos) =~= vs);
    assert(ws.no_duplicates()) by {
        assert forall|a: int, b: int| 0 <= a < ws.len() && 0 <= b < ws.len() && a != b implies ws[a] != ws[b] by {
            if a != pos && b != pos {
                let a2 = if a < pos { a } else { a - 1 };
                let b2 = if b < pos { b } else { b - 1 };
                assert(ws[a] == vs[a2] && ws[b] == vs[b2]);
            } else if a == pos {
                let b2 = if b < pos { b } else { b - 1 };
                assert(ws[b] == vs[b2]);
            } else {
                let a2 = if a < pos { a } else { a - 1 };
                assert(ws[a] == vs[a2]);
            }
        }
    }
    lemma_place_remove(key, ws, k, pos);
    lemma_select_prefix(scored(key, ws), k);
    let small = place(key, ws, k);
    let big = place(key, ws, k + 1);
    lemma_without_prefix(big, small.len() as int, w);
    lemma_without_len(small, w);
    lemma_place_shape(key, ws, k);
    assert(big.take(small.len() as int) =~= small);
    let ns = without(small, w);
    let nb = without(big, w);
    assert(ns.len() <= k);
    if k < nb.len() {
        assert(nb.take(k as int).take(ns.len() as int) =~= nb.take(ns.len() as int));
    }
}

proof fn lemma_select_prefix(ps: Seq<(Seq<u8>, Seq<char>)>, k: nat)
    ensures
        select_lowest(ps, k).len() <= select_lowest(ps, k + 1).len(),
        select_lowest(ps, k + 1).take(select_lowest(ps, k).len() as int) == select_lowest(ps, k),
    decreases k,
{
    if k > 0 && ps.len() > 0 {
        let i = first_min(ps, ps.len() as int);
        lemma_select_prefix(ps.remove(i), (k - 1) as nat);
        let a = select_lowest(ps.remove(i), (k - 1) as nat);
        let b = select_lowest(ps.remove(i), k);
        assert((seq![ps[i].1] + b).take((a.len() + 1) as int) =~= seq![ps[i].1] + b.take(a.len() as int));
    } else if ps.len() > 0 {
        assert(select_lowest(ps, k + 1).take(0) =~= Seq::<Seq<char>>::empty());
    }
}

proof fn lemma_without_prefix(s: Seq<Seq<char>>, n: int, w: Seq<char>)
    requires
        0 <= n <= s.len(),
    ensures
        without(s.take(n), w).len() <= without(s, w).len(),
        without(s, w).take(without(s.take(n), w).len() as int) == without(s.take(n), w),
    decreases s.len(),
{
    if n == 0 {
        assert(s.take(0) =~= Seq::<Seq<char>>::empty());
        assert(without(s, w).take(0) =~= Seq::<Seq<char>>::empty());
    } else {
        let t = s.drop_first();
        lemma_without_prefix(t, n - 1, w);
        assert(s.take(n).drop_first() =~= t.take(n - 1));
        assert(s.take(n)[0] == s[0]);
        let a = without(t.take(n - 1), w);
        let b = without(t, w);
        if s[0] != w {
            assert((seq![s[0]] + b).take((a.len() + 1) as int) =~= seq![s[0]] + b.take(a.len() as int));
        }
    }
}

} // verus!
