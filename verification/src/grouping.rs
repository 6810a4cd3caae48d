//! Combining the meshes of an object file by name: meshes of the same name
//! are merged, and the merged meshes are kept in the order of their names.
use vstd::prelude::*;
use vstd::utf8::{encode_utf8, encode_utf8_decode_utf8};

use crate::psx_structs::VertexPSX;
use crate::MeshGridEntry;

verus! {

/// Byte-wise lexicographic order: `a` comes before `b`, as `str` orders its
/// UTF-8 bytes.
pub open spec fn lex_lt(a: Seq<u8>, b: Seq<u8>) -> bool
    decreases a.len(),
{
    if a.len() == 0 {
        b.len() > 0
    } else if b.len() == 0 {
        false
    } else if a[0] != b[0] {
        a[0] < b[0]
    } else {
        lex_lt(a.drop_first(), b.drop_first())
    }
}

/// The order of names: by their UTF-8 bytes.
pub open spec fn name_lt(a: Seq<char>, b: Seq<char>) -> bool {
    lex_lt(encode_utf8(a), encode_utf8(b))
}

/// The vertices of the triangles of the named meshes among `ms` called
/// `name`, in order.
pub open spec fn triangles_named(ms: Seq<(String, MeshGridEntry)>, name: Seq<char>) -> Seq<VertexPSX>
    decreases ms.len(),
{
    if ms.len() == 0 {
        seq![]
    } else {
        triangles_named(ms.drop_last(), name) + if ms.last().0@ == name {
            ms.last().1.triangles@
        } else {
            seq![]
        }
    }
}

/// The vertices of the quads of the named meshes among `ms` called `name`,
/// in order.
pub open spec fn quads_named(ms: Seq<(String, MeshGridEntry)>, name: Seq<char>) -> Seq<VertexPSX>
    decreases ms.len(),
{
    if ms.len() == 0 {
        seq![]
    } else {
        quads_named(ms.drop_last(), name) + if ms.last().0@ == name {
            ms.last().1.quads@
        } else {
            seq![]
        }
    }
}

proof fn lemma_lex_irreflexive(a: Seq<u8>)
    ensures
        !lex_lt(a, a),
    decreases a.len(),
{
    if a.len() > 0 {
        lemma_lex_irreflexive(a.drop_first());
    }
}

proof fn lemma_lex_transitive(a: Seq<u8>, b: Seq<u8>, c: Seq<u8>)
    requires
        lex_lt(a, b),
        lex_lt(b, c),
    ensures
        lex_lt(a, c),
    decreases a.len(),
{
    if a.len() > 0 && b.len() > 0 && c.len() > 0 && a[0] == b[0] && b[0] == c[0] {
        lemma_lex_transitive(a.drop_first(), b.drop_first(), c.drop_first());
    }
}

proof fn lemma_lex_total(a: Seq<u8>, b: Seq<u8>)
    requires
        a != b,
    ensures
        lex_lt(a, b) || lex_lt(b, a),
    decreases a.len(),
{
    if a.len() > 0 && b.len() > 0 && a[0] == b[0] {
        if a.drop_first() == b.drop_first() {
            assert(a =~= seq![a[0]] + a.drop_first());
            assert(b =~= seq![b[0]] + b.drop_first());
        }
        lemma_lex_total(a.drop_first(), b.drop_first());
    } else if a.len() == 0 && b.len() == 0 {
        assert(a =~= b);
    }
}

/// Distinct names are ordered one way or the other.
proof fn lemma_name_total(a: Seq<char>, b: Seq<char>)
    requires
        a != b,
    ensures
        name_lt(a, b) || name_lt(b, a),
{
    encode_utf8_decode_utf8(a);
    encode_utf8_decode_utf8(b);
    lemma_lex_total(encode_utf8(a), encode_utf8(b));
}

proof fn lemma_lex_skip(a: Seq<u8>, b: Seq<u8>, i: int)
    requires
        0 <= i <= a.len(),
        i <= b.len(),
        a.take(i) == b.take(i),
    ensures
        lex_lt(a, b) == lex_lt(a.skip(i), b.skip(i)),
    decreases i,
{
    if i > 0 {
        assert(a[0] == a.take(i)[0]);
        assert(b[0] == b.take(i)[0]);
        assert(a.drop_first().take(i - 1) =~= a.take(i).drop_first());
        assert(b.drop_first().take(i - 1) =~= b.take(i).drop_first());
        lemma_lex_skip(a.drop_first(), b.drop_first(), i - 1);
        assert(a.drop_first().skip(i - 1) =~= a.skip(i));
        assert(b.drop_first().skip(i - 1) =~= b.skip(i));
    } else {
        assert(a.skip(0) =~= a);
        assert(b.skip(0) =~= b);
    }
}

/// Whether `a` comes before `b` byte-wise.
fn bytes_lt(a: &[u8], b: &[u8]) -> (r: bool)
    ensures
        r == lex_lt(a@, b@),
{
    let mut i: usize = 0;
    while i < a.len() && i < b.len()
        invariant
            i <= a.len(),
            i <= b.len(),
            a@.take(i as int) == b@.take(i as int),
        decreases a.len() - i,
    {
        if a[i] != b[i] {
            proof {
                lemma_lex_skip(a@, b@, i as int);
                assert(a@.skip(i as int)[0] == a@[i as int]);
                assert(b@.skip(i as int)[0] == b@[i as int]);
            }
            return a[i] < b[i];
        }
        assert(a@.take(i + 1) =~= a@.take(i as int).push(a@[i as int]));
        assert(b@.take(i + 1) =~= b@.take(i as int).push(b@[i as int]));
        i += 1;
    }
    proof {
        lemma_lex_skip(a@, b@, i as int);
    }
    a.len() < b.len()
}

/// Some mesh among `ms` is called `name`.
pub open spec fn has_name(ms: Seq<(String, MeshGridEntry)>, name: Seq<char>) -> bool {
    exists|m: int| 0 <= m < ms.len() && #[trigger] ms[m].0@ == name
}

/// The names are in strictly increasing order.
pub open spec fn names_sorted(ms: Seq<(String, MeshGridEntry)>) -> bool {
    forall|i: int, j: int| 0 <= i < j < ms.len() ==> name_lt(#[trigger] ms[i].0@, #[trigger] ms[j].0@)
}

proof fn lemma_named_absent(ms: Seq<(String, MeshGridEntry)>, name: Seq<char>)
    requires
        !has_name(ms, name),
    ensures
        triangles_named(ms, name) == Seq::<VertexPSX>::empty(),
        quads_named(ms, name) == Seq::<VertexPSX>::empty(),
    decreases ms.len(),
{
    if ms.len() > 0 {
        let d = ms.drop_last();
        if has_name(d, name) {
            let m = choose|m: int| 0 <= m < d.len() && #[trigger] d[m].0@ == name;
            assert(ms[m].0@ == name);
        }
        lemma_named_absent(d, name);
        assert(ms[ms.len() - 1].0@ != name);
        assert(triangles_named(ms, name) =~= Seq::<VertexPSX>::empty());
        assert(quads_named(ms, name) =~= Seq::<VertexPSX>::empty());
    }
}

/// Appends the vertices of `src` to `dst`.
fn append_vertices(dst: &mut Vec<VertexPSX>, src: &Vec<VertexPSX>)
    ensures
        final(dst)@ == old(dst)@ + src@,
{
    let ghost d0 = dst@;
    let mut k: usize = 0;
    while k < src.len()
        invariant
            k <= src.len(),
            dst@ == d0 + src@.take(k as int),
        decreases src.len() - k,
    {
        dst.push(src[k]);
        assert(src@.take(k + 1) =~= src@.take(k as int).push(src@[k as int]));
        k += 1;
    }
    assert(src@.take(src.len() as int) =~= src@);
}

/// Merges the meshes of the same name, in the order in which they come, and
/// orders the merged meshes by name (by their UTF-8 bytes, as `str` orders).
pub fn group_by_name(meshes: &Vec<(String, MeshGridEntry)>) -> (groups: Vec<(String, MeshGridEntry)>)
    ensures
        names_sorted(groups@),
        forall|i: int| 0 <= i < groups.len() ==> has_name(meshes@, #[trigger] groups@[i].0@),
        forall|m: int| 0 <= m < meshes.len() ==> has_name(groups@, #[trigger] meshes@[m].0@),
        forall|i: int|
            0 <= i < groups.len() ==> (#[trigger] groups@[i]).1.triangles@ == triangles_named(
                meshes@,
                groups@[i].0@,
            ) && groups@[i].1.quads@ == quads_named(meshes@, groups@[i].0@),
{
    let mut groups: Vec<(String, MeshGridEntry)> = Vec::new();
    let mut k: usize = 0;
    while k < meshes.len()
        invariant
            k <= meshes.len(),
            names_sorted(groups@),
            forall|i: int|
                0 <= i < groups.len() ==> has_name(
                    meshes@.take(k as int),
                    #[trigger] groups@[i].0@,
                ),
            forall|m: int| 0 <= m < k ==> has_name(groups@, #[trigger] meshes@[m].0@),
            forall|i: int|
                0 <= i < groups.len() ==> (#[trigger] groups@[i]).1.triangles@ == triangles_named(
                    meshes@.take(k as int),
                    groups@[i].0@,
                ) && groups@[i].1.quads@ == quads_named(meshes@.take(k as int), groups@[i].0@),
        decreases meshes.len() - k,
    {
        let ghost g0 = groups@;
        let ghost ms0 = meshes@.take(k as int);
        let ghost ms1 = meshes@.take(k + 1);
        let name = &meshes[k].0;
        let ghost n = name@;
        proof {
            assert(ms1.drop_last() =~= ms0);
            assert(ms1.last() == meshes@[k as int]);
        }
        let key = name.as_str().as_bytes();

        // Find the first group whose name does not come before this one
        let mut p: usize = 0;
        while p < groups.len() && bytes_lt(groups[p].0.as_str().as_bytes(), key)
            invariant
                p <= groups.len(),
                groups@ == g0,
                key@ == encode_utf8(n),
                forall|q: int| 0 <= q < p ==> name_lt(#[trigger] groups@[q].0@, n),
            decreases groups.len() - p,
        {
            p += 1;
        }

        if p < groups.len() && groups[p].0 == *name {
            // Merge into the group of the same name
            let (group_name, mut entry) = groups.remove(p);
            append_vertices(&mut entry.triangles, &meshes[k].1.triangles);
            append_vertices(&mut entry.quads, &meshes[k].1.quads);
            groups.insert(p, (group_name, entry));
            proof {
                assert(groups@ =~= g0.update(p as int, groups@[p as int]));
                assert forall|i: int, j: int| 0 <= i < j < groups.len() implies name_lt(
                    #[trigger] groups@[i].0@,
                    #[trigger] groups@[j].0@,
                ) by {
                    assert(g0[i].0@ == groups@[i].0@ && g0[j].0@ == groups@[j].0@);
                    assert(name_lt(g0[i].0@, g0[j].0@));
                }
                assert forall|i: int| 0 <= i < groups.len() implies has_name(
                    ms1,
                    #[trigger] groups@[i].0@,
                ) by {
                    assert(has_name(ms0, g0[i].0@));
                    let m = choose|m: int| 0 <= m < ms0.len() && #[trigger] ms0[m].0@ == g0[i].0@;
                    assert(ms1[m] == ms0[m]);
                }
                assert forall|m: int| 0 <= m < k + 1 implies has_name(
                    groups@,
                    #[trigger] meshes@[m].0@,
                ) by {
                    if m < k {
                        assert(has_name(g0, meshes@[m].0@));
                        let i = choose|i: int| 0 <= i < g0.len() && #[trigger] g0[i].0@ == meshes@[m].0@;
                        assert(groups@[i].0@ == g0[i].0@);
                    } else {
                        assert(groups@[p as int].0@ == meshes@[m].0@);
                    }
                }
                assert forall|i: int| 0 <= i < groups.len() implies (#[trigger] groups@[i]).1.triangles@
                    == triangles_named(ms1, groups@[i].0@) && groups@[i].1.quads@ == quads_named(
                    ms1,
                    groups@[i].0@,
                ) by {
                    if i != p {
                        assert(groups@[i] == g0[i]);
                        assert(g0[i].0@ != n) by {
                            if g0[i].0@ == n {
                                lemma_lex_irreflexive(encode_utf8(n));
                                if i < p {
                                    assert(name_lt(g0[i].0@, n));
                                } else {
                                    assert(name_lt(g0[p as int].0@, g0[i].0@));
                                }
                            }
                        }
                    }
                }
            }
        } else {
            // A new group, placed before the first name that comes after it
            let mut triangles: Vec<VertexPSX> = Vec::new();
            let mut quads: Vec<VertexPSX> = Vec::new();
            append_vertices(&mut triangles, &meshes[k].1.triangles);
            append_vertices(&mut quads, &meshes[k].1.quads);
            let entry = MeshGridEntry { triangles, quads };
            groups.insert(p, (name.clone(), entry));
            proof {
                lemma_lex_irreflexive(encode_utf8(n));
                // every existing name differs from the new one
                if p < g0.len() {
                    assert(g0[p as int].0@ != n);
                    lemma_name_total(g0[p as int].0@, n);
                    assert(name_lt(n, g0[p as int].0@));
                }
                assert forall|q: int| p <= q < g0.len() implies name_lt(n, #[trigger] g0[q].0@) by {
                    if q > p {
                        assert(name_lt(g0[p as int].0@, g0[q].0@));
                        lemma_lex_transitive(
                            encode_utf8(n),
                            encode_utf8(g0[p as int].0@),
                            encode_utf8(g0[q].0@),
                        );
                    }
                }
                assert forall|q: int| 0 <= q < g0.len() implies #[trigger] g0[q].0@ != n by {
                    if q < p {
                        assert(name_lt(g0[q].0@, n));
                    } else {
                        assert(name_lt(n, g0[q].0@));
                    }
                }
                assert(!has_name(g0, n));
                assert(!has_name(ms0, n)) by {
                    if has_name(ms0, n) {
                        let m = choose|m: int| 0 <= m < ms0.len() && #[trigger] ms0[m].0@ == n;
                        assert(meshes@[m] == ms0[m]);
                        assert(has_name(g0, meshes@[m].0@));
                    }
                }
                lemma_named_absent(ms0, n);
                assert forall|i: int, j: int| 0 <= i < j < groups.len() implies name_lt(
                    #[trigger] groups@[i].0@,
                    #[trigger] groups@[j].0@,
                ) by {
                    if j < p {
                        assert(groups@[i] == g0[i] && groups@[j] == g0[j]);
                    } else if j == p {
                        assert(groups@[i] == g0[i]);
                    } else if i < p {
                        assert(groups@[i] == g0[i] && groups@[j] == g0[j - 1]);
                        assert(name_lt(g0[i].0@, n));
                        assert(name_lt(n, g0[j - 1].0@));
                        lemma_lex_transitive(
                            encode_utf8(g0[i].0@),
                            encode_utf8(n),
                            encode_utf8(g0[j - 1].0@),
                        );
                    } else if i == p {
                        assert(groups@[j] == g0[j - 1]);
                    } else {
                        assert(groups@[i] == g0[i - 1] && groups@[j] == g0[j - 1]);
                    }
                }
                assert forall|i: int| 0 <= i < groups.len() implies has_name(
                    ms1,
                    #[trigger] groups@[i].0@,
                ) by {
                    if i == p {
                        assert(ms1[k as int].0@ == n);
                    } else {
                        let i0 = if i < p {
                            i
                        } else {
                            i - 1
                        };
                        assert(groups@[i] == g0[i0]);
                        assert(has_name(ms0, g0[i0].0@));
                        let m = choose|m: int| 0 <= m < ms0.len() && #[trigger] ms0[m].0@ == g0[i0].0@;
                        assert(ms1[m] == ms0[m]);
                    }
                }
                assert forall|m: int| 0 <= m < k + 1 implies has_name(
                    groups@,
                    #[trigger] meshes@[m].0@,
                ) by {
                    if m < k {
                        assert(has_name(g0, meshes@[m].0@));
                        let i = choose|i: int| 0 <= i < g0.len() && #[trigger] g0[i].0@ == meshes@[m].0@;
                        if i < p {
                            assert(groups@[i] == g0[i]);
                        } else {
                            assert(groups@[i + 1] == g0[i]);
                        }
                    } else {
                        assert(groups@[p as int].0@ == meshes@[m].0@);
                    }
                }
                assert forall|i: int| 0 <= i < groups.len() implies (#[trigger] groups@[i]).1.triangles@
                    == triangles_named(ms1, groups@[i].0@) && groups@[i].1.quads@ == quads_named(
                    ms1,
                    groups@[i].0@,
                ) by {
                    if i == p {
                        assert(triangles_named(ms1, n) =~= triangles_named(ms0, n)
                            + meshes@[k as int].1.triangles@);
                        assert(quads_named(ms1, n) =~= quads_named(ms0, n) + meshes@[k as int].1.quads@);
                    } else {
                        let i0 = if i < p {
                            i
                        } else {
                            i - 1
                        };
                        assert(groups@[i] == g0[i0]);
                        assert(g0[i0].0@ != n);
                    }
                }
            }
        }
        k += 1;
    }
    assert(meshes@.take(meshes.len() as int) =~= meshes@);
    groups
}

} // verus!
