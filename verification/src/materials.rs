//! Mapping of a mesh's materials to texture ids: occluders, untextured
//! materials, and materials that share texture files.
use vstd::prelude::*;
use vstd::utf8::encode_utf8;

verus! {

/// Texture id of occluder materials.
pub const OCCLUDER_TEXTURE_ID: usize = 254;

/// Texture id of materials without a diffuse texture.
pub const NO_TEXTURE_ID: usize = 255;

/// What the texture mapping reads of a material: its name and the path of
/// its diffuse texture, if it has one.
pub struct MaterialInfo {
    pub name: String,
    pub diffuse_texture: Option<String>,
}

/// `pat` occurs in `hay` as a contiguous run of bytes.
pub open spec fn contains_bytes(hay: Seq<u8>, pat: Seq<u8>) -> bool {
    exists|k: int| 0 <= k <= hay.len() - pat.len() && #[trigger] hay.subrange(k, k + pat.len()) == pat
}

/// A material is an occluder when its name contains "occlude".
pub open spec fn is_occluder(name: Seq<char>) -> bool {
    contains_bytes(encode_utf8(name), encode_utf8("occlude"@))
}

/// The distinct texture paths of the (non-occluder) materials, in the order
/// in which they first occur.
pub open spec fn texture_list(mats: Seq<MaterialInfo>) -> Seq<Seq<char>>
    decreases mats.len(),
{
    if mats.len() == 0 {
        seq![]
    } else {
        let prev = texture_list(mats.drop_last());
        let m = mats.last();
        if is_occluder(m.name@) {
            prev
        } else {
            match m.diffuse_texture {
                Some(t) => if prev.contains(t@) {
                    prev
                } else {
                    prev.push(t@)
                },
                None => prev,
            }
        }
    }
}

/// The index of the first occurrence of `x` in `s` (`s.len()` when absent).
pub open spec fn first_position(s: Seq<Seq<char>>, x: Seq<char>) -> int
    decreases s.len(),
{
    if s.len() == 0 {
        0
    } else if s[0] == x {
        0
    } else {
        1 + first_position(s.drop_first(), x)
    }
}

/// The texture id of material `i`: 254 for occluders, 255 for materials
/// without a texture, otherwise the position of its texture path among the
/// distinct paths of the materials up to it.
pub open spec fn material_id(mats: Seq<MaterialInfo>, i: int) -> int {
    let m = mats[i];
    if is_occluder(m.name@) {
        OCCLUDER_TEXTURE_ID as int
    } else {
        match m.diffuse_texture {
            Some(t) => first_position(texture_list(mats.take(i + 1)), t@),
            None => NO_TEXTURE_ID as int,
        }
    }
}

proof fn lemma_first_position(s: Seq<Seq<char>>, x: Seq<char>, j: int)
    requires
        0 <= j <= s.len(),
        j < s.len() ==> s[j] == x,
        forall|k: int| 0 <= k < j ==> s[k] != x,
    ensures
        first_position(s, x) == j,
    decreases j,
{
    if j > 0 {
        assert(s[0] != x);
        let t = s.drop_first();
        assert forall|k: int| 0 <= k < j - 1 implies t[k] != x by {
            assert(t[k] == s[k + 1]);
        }
        lemma_first_position(t, x, j - 1);
    }
}

/// Whether `pat` occurs in `hay`.
fn bytes_contain(hay: &[u8], pat: &[u8]) -> (r: bool)
    ensures
        r == contains_bytes(hay@, pat@),
{
    if pat.len() > hay.len() {
        return false;
    }
    let last = hay.len() - pat.len();
    let mut k: usize = 0;
    while k <= last
        invariant
            pat.len() <= hay.len(),
            last == hay.len() - pat.len(),
            k <= last + 1,
            forall|k2: int| 0 <= k2 < k ==> #[trigger] hay@.subrange(k2, k2 + pat.len()) != pat@,
        decreases last + 1 - k,
    {
        let mut j: usize = 0;
        let mut same = true;
        while j < pat.len()
            invariant
                k <= last,
                last == hay.len() - pat.len(),
                j <= pat.len(),
                same == (forall|j2: int| 0 <= j2 < j ==> hay@[k + j2] == pat@[j2]),
            decreases pat.len() - j,
        {
            if hay[k + j] != pat[j] {
                same = false;
            }
            j += 1;
        }
        if same {
            assert(hay@.subrange(k as int, k + pat.len()) =~= pat@);
            return true;
        }
        proof {
            let j2 = choose|j2: int| 0 <= j2 < pat.len() && hay@[k + j2] != pat@[j2];
            assert(hay@.subrange(k as int, k + pat.len())[j2] != pat@[j2]);
        }
        k += 1;
    }
    false
}

/// Texture ids for a mesh's materials, and the texture paths they refer to.
///
/// Occluders (name containing "occlude") get 254 and untextured materials
/// 255; textured materials get the index of their texture path in the
/// returned list, which holds each path once, in order of first use.
pub fn material_mapping(materials: &Vec<MaterialInfo>) -> (res: (Vec<usize>, Vec<String>))
    ensures
        res.0.len() == materials.len(),
        res.1@.map_values(|t: String| t@) == texture_list(materials@),
        forall|i: int| 0 <= i < materials.len() ==> #[trigger] res.0@[i] == material_id(materials@, i),
        forall|i: int|
            #![trigger res.0@[i]]
            0 <= i < materials.len() && !is_occluder(materials@[i].name@)
                && materials@[i].diffuse_texture is Some ==> {
                &&& res.0@[i] < res.1.len()
                &&& res.1@[res.0@[i] as int]@ == materials@[i].diffuse_texture->0@
            },
        forall|a: int, b: int|
            0 <= a < b < res.1.len() ==> #[trigger] res.1@[a]@ != #[trigger] res.1@[b]@,
{
    let marker: &str = "occlude";
    let pat = marker.as_bytes();
    let mut ids: Vec<usize> = Vec::new();
    let mut textures: Vec<String> = Vec::new();
    let mut i: usize = 0;
    while i < materials.len()
        invariant
            i <= materials.len(),
            pat@ == encode_utf8("occlude"@),
            ids.len() == i,
            textures@.map_values(|t: String| t@) == texture_list(materials@.take(i as int)),
            forall|i2: int| 0 <= i2 < i ==> #[trigger] ids@[i2] == material_id(materials@, i2),
            forall|i2: int|
                #![trigger ids@[i2]]
                0 <= i2 < i && !is_occluder(materials@[i2].name@)
                    && materials@[i2].diffuse_texture is Some ==> {
                    &&& ids@[i2] < textures.len()
                    &&& textures@[ids@[i2] as int]@
                        == materials@[i2].diffuse_texture->0@
                },
            forall|a: int, b: int|
                0 <= a < b < textures.len() ==> #[trigger] textures@[a]@ != #[trigger] textures@[b]@,
        decreases materials.len() - i,
    {
        let ghost mats = materials@;
        let ghost prev = textures@.map_values(|t: String| t@);
        proof {
            assert(mats.take(i + 1).drop_last() =~= mats.take(i as int));
            assert(mats.take(i + 1).last() == mats[i as int]);
            assert(mats.take(i + 1)[i as int] == mats[i as int]);
        }
        let m = &materials[i];
        let occluder = bytes_contain(m.name.as_str().as_bytes(), pat);
        if occluder {
            ids.push(OCCLUDER_TEXTURE_ID);
            assert(textures@.map_values(|t: String| t@) =~= texture_list(mats.take(i + 1)));
        } else {
            match &m.diffuse_texture {
                Some(t) => {
                    let mut k: usize = 0;
                    let mut found = textures.len();
                    while k < textures.len() && found == textures.len()
                        invariant
                            k <= textures.len(),
                            found <= textures.len(),
                            found == textures.len() ==> forall|k2: int|
                                0 <= k2 < k ==> #[trigger] textures@[k2]@ != t@,
                            found < textures.len() ==> textures@[found as int]@ == t@,
                            found < textures.len() ==> forall|k2: int|
                                0 <= k2 < found ==> #[trigger] textures@[k2]@ != t@,
                        decreases textures.len() - k,
                    {
                        if textures[k] == *t {
                            found = k;
                        }
                        k += 1;
                    }
                    proof {
                        assert forall|k2: int| 0 <= k2 < prev.len() implies prev[k2]
                            == textures@[k2]@ by {}
                    }
                    if found == textures.len() {
                        proof {
                            assert forall|k2: int| 0 <= k2 < prev.len() implies prev[k2]
                                != t@ by {}
                            assert(!prev.contains(t@));
                            lemma_first_position(prev.push(t@), t@, prev.len() as int);
                        }
                        textures.push(t.clone());
                        assert(textures@.map_values(|t: String| t@) =~= prev.push(t@));
                    } else {
                        proof {
                            assert(prev[found as int] == t@);
                            assert(prev.contains(t@));
                            lemma_first_position(prev, t@, found as int);
                        }
                    }
                    ids.push(found);
                    assert(textures@.map_values(|t: String| t@) =~= texture_list(mats.take(i + 1)));
                },
                None => {
                    ids.push(NO_TEXTURE_ID);
                    assert(textures@.map_values(|t: String| t@) =~= texture_list(mats.take(i + 1)));
                },
            }
        }
        i += 1;
    }
    assert(materials@.take(materials.len() as int) =~= materials@);
    (ids, textures)
}

} // verus!
