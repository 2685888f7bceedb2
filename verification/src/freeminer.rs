//! The voxel rendering model: the packed city is rasterised into a 3-D
//! voxel array, the voxels are cut into 16-by-16-by-16 node blobs, and each
//! blob is encoded, compressed and hex-dumped into the text form a world
//! database row takes.

use vstd::prelude::*;

use crate::codecity::Package;
use crate::codecity::PackageV;
use crate::codecity::BuildingV;
use crate::codecity::pview;
use crate::codecity::packed_wf;
use crate::codecity::pkg_height;
use crate::codecity::pkgs_hmax;
use crate::codecity::blds_hmax;
use crate::codecity::child_rects;
use crate::codecity::rect_in;
use crate::codecity::lemma_pviews;
use crate::codecity::lemma_pkgs_hmax_elt;
use crate::codecity::lemma_blds_hmax_elt;
use crate::codecity::lemma_pkgs_hmax_nonneg;
use crate::codecity::lemma_blds_hmax_nonneg;
use vstd::string::StringExecFns;
use vstd::string::StringSliceAdditionalSpecFns;

verus! {

/// The hexadecimal digit of a nibble.
pub open spec fn hex_digit_spec(n: u8) -> char {
    if n == 0 {
        '0'
    } else if n == 1 {
        '1'
    } else if n == 2 {
        '2'
    } else if n == 3 {
        '3'
    } else if n == 4 {
        '4'
    } else if n == 5 {
        '5'
    } else if n == 6 {
        '6'
    } else if n == 7 {
        '7'
    } else if n == 8 {
        '8'
    } else if n == 9 {
        '9'
    } else if n == 10 {
        'A'
    } else if n == 11 {
        'B'
    } else if n == 12 {
        'C'
    } else if n == 13 {
        'D'
    } else if n == 14 {
        'E'
    } else {
        'F'
    }
}

/// The upper-case hex dump of a byte sequence, two digits per byte.
pub open spec fn hex_of(bs: Seq<u8>) -> Seq<char>
    decreases bs.len(),
{
    if bs.len() == 0 {
        Seq::empty()
    } else {
        hex_of(bs.drop_last()) + seq![
            hex_digit_spec(bs.last() / 16),
            hex_digit_spec(bs.last() % 16),
        ]
    }
}

fn hex_digit(n: u8) -> (r: &'static str)
    requires
        n < 16,
    ensures
        r@ == seq![hex_digit_spec(n)],
{
    proof {
        reveal_strlit("0");
        reveal_strlit("1");
        reveal_strlit("2");
        reveal_strlit("3");
        reveal_strlit("4");
        reveal_strlit("5");
        reveal_strlit("6");
        reveal_strlit("7");
        reveal_strlit("8");
        reveal_strlit("9");
        reveal_strlit("A");
        reveal_strlit("B");
        reveal_strlit("C");
        reveal_strlit("D");
        reveal_strlit("E");
        reveal_strlit("F");
    }
    if n == 0 {
        "0"
    } else if n == 1 {
        "1"
    } else if n == 2 {
        "2"
    } else if n == 3 {
        "3"
    } else if n == 4 {
        "4"
    } else if n == 5 {
        "5"
    } else if n == 6 {
        "6"
    } else if n == 7 {
        "7"
    } else if n == 8 {
        "8"
    } else if n == 9 {
        "9"
    } else if n == 10 {
        "A"
    } else if n == 11 {
        "B"
    } else if n == 12 {
        "C"
    } else if n == 13 {
        "D"
    } else if n == 14 {
        "E"
    } else {
        "F"
    }
}

/// The hex dump of a byte vector, upper case, two digits per byte.
pub fn hex(v: &Vec<u8>) -> (r: String)
    ensures
        r@ == hex_of(v@),
{
    let mut s = String::new();
    let mut i: usize = 0;
    while i < v.len()
        invariant
            i <= v@.len(),
            s@ == hex_of(v@.take(i as int)),
        decreases v@.len() - i,
    {
        let b = v[i];
        s.append(hex_digit(b / 16));
        s.append(hex_digit(b % 16));
        proof {
            assert(v@.take(i + 1).drop_last() =~= v@.take(i as int));
            assert(v@.take(i + 1).last() == v@[i as int]);
        }
        i = i + 1;
    }
    proof {
        assert(v@.take(v@.len() as int) =~= v@);
    }
    s
}

/// The two big-endian bytes of a 16-bit length.
pub open spec fn be16(n: int) -> Seq<u8> {
    seq![(n / 256) as u8, (n % 256) as u8]
}

/// The four big-endian bytes of a 32-bit length.
pub open spec fn be32(n: int) -> Seq<u8> {
    seq![
        (n / 0x1000000) as u8,
        ((n / 0x10000) % 256) as u8,
        ((n / 256) % 256) as u8,
        (n % 256) as u8,
    ]
}

/// The wire form of one metadata variable: its name's 16-bit length and
/// bytes, then its value's 32-bit length and bytes. As in the world format,
/// a length is truncated to the width of its field.
pub open spec fn variable_bytes(name: Seq<u8>, value: Seq<u8>) -> Seq<u8> {
    be16(name.len() as int % 0x10000) + name + be32(value.len() as int % 0x100000000) + value
}

/// Append one metadata variable to the byte vector.
pub fn push_variable(vec: &mut Vec<u8>, name: &str, value: &str)
    ensures
        final(vec)@ == old(vec)@ + variable_bytes(name.spec_bytes(), value.spec_bytes()),
{
    let ghost orig = old(vec)@;
    let nb = name.as_bytes();
    let vb = value.as_bytes();
    let klen: u16 = (nb.len() % 0x10000) as u16;
    vec.push((klen / 256) as u8);
    vec.push((klen % 256) as u8);
    proof {
        assert(vec@ =~= orig + be16(name.spec_bytes().len() as int % 0x10000));
    }
    let mut i: usize = 0;
    while i < nb.len()
        invariant
            i <= nb@.len(),
            nb@ == name.spec_bytes(),
            vec@ == orig + be16(name.spec_bytes().len() as int % 0x10000) + nb@.take(i as int),
        decreases nb@.len() - i,
    {
        vec.push(nb[i]);
        proof {
            assert(nb@.take(i + 1) =~= nb@.take(i as int).push(nb@[i as int]));
        }
        i = i + 1;
    }
    proof {
        assert(nb@.take(nb@.len() as int) =~= nb@);
    }
    let vlen: u32 = ((vb.len() as u64) % 0x100000000u64) as u32;
    let ghost before32 = vec@;
    vec.push((vlen / 0x1000000) as u8);
    vec.push((vlen / 0x10000 % 256) as u8);
    vec.push((vlen / 256 % 256) as u8);
    vec.push((vlen % 256) as u8);
    proof {
        assert(vec@ =~= before32 + be32(value.spec_bytes().len() as int % 0x100000000));
    }
    let mut i: usize = 0;
    while i < vb.len()
        invariant
            i <= vb@.len(),
            vb@ == value.spec_bytes(),
            vec@ == before32 + be32(value.spec_bytes().len() as int % 0x100000000) + vb@.take(
                i as int,
            ),
        decreases vb@.len() - i,
    {
        vec.push(vb[i]);
        proof {
            assert(vb@.take(i + 1) =~= vb@.take(i as int).push(vb@[i as int]));
        }
        i = i + 1;
    }
    proof {
        assert(vb@.take(vb@.len() as int) =~= vb@);
        assert(vec@ =~= orig + variable_bytes(name.spec_bytes(), value.spec_bytes()));
    }
}

/// The closing marker of a metadata block.
pub open spec fn end_inventory_bytes() -> Seq<u8> {
    seq![0x45u8, 0x6e, 0x64, 0x49, 0x6e, 0x76, 0x65, 0x6e, 0x74, 0x6f, 0x72, 0x79, 0x0a]
}

/// The metadata block that puts a sign with the given text at the given
/// node position: a header, three variables, and the closing marker.
pub open spec fn meta_bytes_spec(text: Seq<u8>, pos: int) -> Seq<u8> {
    seq![1u8, 0, 1, (pos / 256) as u8, (pos % 256) as u8, 0, 0, 0, 3] + variable_bytes(
        "formspec".spec_bytes(),
        "field[text;;${text}]".spec_bytes(),
    ) + variable_bytes("infotext".spec_bytes(), text) + variable_bytes(
        "text".spec_bytes(),
        text,
    ) + end_inventory_bytes()
}

/// Encode the metadata of a sign carrying `text` at node position `pos`.
pub fn meta_bytes(text: &str, pos: u16) -> (r: Vec<u8>)
    ensures
        r@ == meta_bytes_spec(text.spec_bytes(), pos as int),
{
    let mut vec: Vec<u8> = Vec::new();
    vec.push(0x01);
    vec.push(0x00);
    vec.push(0x01);
    vec.push((pos / 256) as u8);
    vec.push((pos % 256) as u8);
    vec.push(0x00);
    vec.push(0x00);
    vec.push(0x00);
    vec.push(0x03);
    proof {
        assert(vec@ =~= seq![1u8, 0, 1, (pos as int / 256) as u8, (pos as int % 256) as u8, 0, 0, 0, 3]);
    }
    push_variable(&mut vec, "formspec", "field[text;;${text}]");
    push_variable(&mut vec, "infotext", text);
    push_variable(&mut vec, "text", text);
    let ghost before_end = vec@;
    vec.push(0x45);
    vec.push(0x6e);
    vec.push(0x64);
    vec.push(0x49);
    vec.push(0x6e);
    vec.push(0x76);
    vec.push(0x65);
    vec.push(0x6e);
    vec.push(0x74);
    vec.push(0x6f);
    vec.push(0x72);
    vec.push(0x79);
    vec.push(0x0a);
    proof {
        assert(vec@ =~= before_end + end_inventory_bytes());
        assert(vec@ =~= meta_bytes_spec(text.spec_bytes(), pos as int));
    }
    vec
}

/// One 16-by-16-by-16 block of world nodes: a content id, a light value and
/// an extra value for each of its 4096 node positions.
pub struct NodeBlob {
    pub param0: Vec<u16>,
    pub param1: Vec<u8>,
    pub param2: Vec<u8>,
}

pub open spec fn blob_wf(b: NodeBlob) -> bool {
    b.param0@.len() == 4096 && b.param1@.len() == 4096 && b.param2@.len() == 4096
}

/// Big-endian bytes of a sequence of 16-bit values.
pub open spec fn p0_bytes(s: Seq<u16>) -> Seq<u8>
    decreases s.len(),
{
    if s.len() == 0 {
        Seq::empty()
    } else {
        p0_bytes(s.drop_last()) + seq![(s.last() / 256) as u8, (s.last() % 256) as u8]
    }
}

/// The wire form of a node blob: the content ids big-endian, then the two
/// byte arrays.
pub open spec fn blob_bytes(b: NodeBlob) -> Seq<u8> {
    p0_bytes(b.param0@) + b.param1@ + b.param2@
}

/// Encode a node blob to bytes.
pub fn to_bytes(blob: &NodeBlob) -> (r: Vec<u8>)
    requires
        blob_wf(*blob),
    ensures
        r@ == blob_bytes(*blob),
{
    let mut vec: Vec<u8> = Vec::new();
    let mut i: usize = 0;
    while i < blob.param0.len()
        invariant
            i <= blob.param0@.len(),
            vec@ == p0_bytes(blob.param0@.take(i as int)),
        decreases blob.param0@.len() - i,
    {
        let p = blob.param0[i];
        vec.push((p / 256) as u8);
        vec.push((p % 256) as u8);
        proof {
            assert(blob.param0@.take(i + 1).drop_last() =~= blob.param0@.take(i as int));
            assert(blob.param0@.take(i + 1).last() == blob.param0@[i as int]);
            assert(vec@ =~= p0_bytes(blob.param0@.take(i + 1)));
        }
        i = i + 1;
    }
    proof {
        assert(blob.param0@.take(blob.param0@.len() as int) =~= blob.param0@);
    }
    let ghost after0 = vec@;
    let mut i: usize = 0;
    while i < blob.param1.len()
        invariant
            i <= blob.param1@.len(),
            vec@ == after0 + blob.param1@.take(i as int),
        decreases blob.param1@.len() - i,
    {
        vec.push(blob.param1[i]);
        proof {
            assert(blob.param1@.take(i + 1) =~= blob.param1@.take(i as int).push(
                blob.param1@[i as int],
            ));
        }
        i = i + 1;
    }
    proof {
        assert(blob.param1@.take(blob.param1@.len() as int) =~= blob.param1@);
    }
    let ghost after1 = vec@;
    let mut i: usize = 0;
    while i < blob.param2.len()
        invariant
            i <= blob.param2@.len(),
            vec@ == after1 + blob.param2@.take(i as int),
        decreases blob.param2@.len() - i,
    {
        vec.push(blob.param2[i]);
        proof {
            assert(blob.param2@.take(i + 1) =~= blob.param2@.take(i as int).push(
                blob.param2@[i as int],
            ));
        }
        i = i + 1;
    }
    proof {
        assert(blob.param2@.take(blob.param2@.len() as int) =~= blob.param2@);
        assert(vec@ =~= blob_bytes(*blob));
    }
    vec
}

/// The voxel array: a three-dimensional grid of bytes, held in a multiarray
/// `Array3D` that Verus does not look into. The trusted accessors below say
/// what it holds, through the two names `voxel_cells` and `voxel_extents`.
#[verifier::external_body]
pub struct VoxelArray {
    arr: multiarray::Array3D<u8>,
}

/// What the voxel array holds at each coordinate.
pub uninterp spec fn voxel_cells(a: VoxelArray) -> Map<(int, int, int), u8>;

/// The three extents of the voxel array.
pub uninterp spec fn voxel_extents(a: VoxelArray) -> (int, int, int);

/// Relies on multiarray's `Array3D::new`: a w-by-d-by-h array holding `fill`
/// everywhere.
#[verifier::external_body]
fn voxels_new(w: usize, d: usize, h: usize, fill: u8) -> (r: VoxelArray)
    ensures
        voxel_extents(r) == (w as int, d as int, h as int),
        forall|x: int, y: int, z: int|
            #![auto]
            0 <= x < w && 0 <= y < d && 0 <= z < h ==> voxel_cells(r)[(x, y, z)] == fill,
{
    VoxelArray { arr: multiarray::Array3D::new([w, d, h], fill) }
}

/// Relies on multiarray's `Index` impl: reading a cell inside the extents.
#[verifier::external_body]
fn voxels_get(a: &VoxelArray, x: usize, y: usize, z: usize) -> (r: u8)
    requires
        0 <= x < voxel_extents(*a).0,
        0 <= y < voxel_extents(*a).1,
        0 <= z < voxel_extents(*a).2,
    ensures
        r == voxel_cells(*a)[(x as int, y as int, z as int)],
{
    a.arr[[x, y, z]]
}

/// Relies on multiarray's `IndexMut` impl: writing one cell inside the
/// extents.
#[verifier::external_body]
fn voxels_set(a: &mut VoxelArray, x: usize, y: usize, z: usize, v: u8)
    requires
        0 <= x < voxel_extents(*old(a)).0,
        0 <= y < voxel_extents(*old(a)).1,
        0 <= z < voxel_extents(*old(a)).2,
    ensures
        voxel_extents(*final(a)) == voxel_extents(*old(a)),
        voxel_cells(*final(a)) == voxel_cells(*old(a)).insert((x as int, y as int, z as int), v),
{
    a.arr[[x, y, z]] = v;
}

/// Relies on multiarray's `extents`: the three extents, in axis order.
#[verifier::external_body]
fn voxels_extents(a: &VoxelArray) -> (r: (usize, usize, usize))
    ensures
        voxel_extents(*a) == (r.0 as int, r.1 as int, r.2 as int),
{
    let e = a.arr.extents();
    (e[0], e[1], e[2])
}

/// Write `v` into the rectangle `[x0, x1) x [y0, y1)` of layer `z`.
fn fill_rect_z(
    voxels: &mut VoxelArray,
    x0: usize,
    x1: usize,
    y0: usize,
    y1: usize,
    z: usize,
    v: u8,
)
    requires
        x0 <= x1,
        y0 <= y1,
        x1 <= voxel_extents(*old(voxels)).0,
        y1 <= voxel_extents(*old(voxels)).1,
        z < voxel_extents(*old(voxels)).2,
    ensures
        voxel_extents(*final(voxels)) == voxel_extents(*old(voxels)),
        forall|x: int, y: int, zz: int|
            #![auto]
            voxel_cells(*final(voxels))[(x, y, zz)] == if x0 <= x < x1 && y0 <= y < y1 && zz == z {
                v
            } else {
                voxel_cells(*old(voxels))[(x, y, zz)]
            },
{
    let mut x: usize = x0;
    while x < x1
        invariant
            x0 <= x <= x1,
            x1 <= voxel_extents(*voxels).0,
            y1 <= voxel_extents(*voxels).1,
            y0 <= y1,
            z < voxel_extents(*voxels).2,
            voxel_extents(*voxels) == voxel_extents(*old(voxels)),
            forall|a: int, b: int, c: int|
                #![auto]
                voxel_cells(*voxels)[(a, b, c)] == if x0 <= a < x && y0 <= b < y1 && c == z {
                    v
                } else {
                    voxel_cells(*old(voxels))[(a, b, c)]
                },
        decreases x1 - x,
    {
        let mut y: usize = y0;
        while y < y1
            invariant
                x0 <= x < x1,
                y0 <= y <= y1,
                x1 <= voxel_extents(*voxels).0,
                y1 <= voxel_extents(*voxels).1,
                z < voxel_extents(*voxels).2,
                voxel_extents(*voxels) == voxel_extents(*old(voxels)),
                forall|a: int, b: int, c: int|
                    #![auto]
                    voxel_cells(*voxels)[(a, b, c)] == if (x0 <= a < x && y0 <= b < y1 && c == z)
                        || (a == x && y0 <= b < y && c == z) {
                        v
                    } else {
                        voxel_cells(*old(voxels))[(a, b, c)]
                    },
            decreases y1 - y,
        {
            voxels_set(voxels, x, y, z, v);
            y = y + 1;
        }
        x = x + 1;
    }
}

/// Write `v` into the box `[x0, x1) x [y0, y1) x [z0, z1)`.
fn fill_box(
    voxels: &mut VoxelArray,
    x0: usize,
    x1: usize,
    y0: usize,
    y1: usize,
    z0: usize,
    z1: usize,
    v: u8,
)
    requires
        x0 <= x1,
        y0 <= y1,
        z0 <= z1,
        x1 <= voxel_extents(*old(voxels)).0,
        y1 <= voxel_extents(*old(voxels)).1,
        z1 <= voxel_extents(*old(voxels)).2,
    ensures
        voxel_extents(*final(voxels)) == voxel_extents(*old(voxels)),
        forall|x: int, y: int, z: int|
            #![auto]
            voxel_cells(*final(voxels))[(x, y, z)] == if x0 <= x < x1 && y0 <= y < y1 && z0 <= z
                < z1 {
                v
            } else {
                voxel_cells(*old(voxels))[(x, y, z)]
            },
{
    let mut z: usize = z0;
    while z < z1
        invariant
            z0 <= z <= z1,
            x0 <= x1,
            y0 <= y1,
            x1 <= voxel_extents(*voxels).0,
            y1 <= voxel_extents(*voxels).1,
            z1 <= voxel_extents(*voxels).2,
            voxel_extents(*voxels) == voxel_extents(*old(voxels)),
            forall|a: int, b: int, c: int|
                #![auto]
                voxel_cells(*voxels)[(a, b, c)] == if x0 <= a < x1 && y0 <= b < y1 && z0 <= c < z {
                    v
                } else {
                    voxel_cells(*old(voxels))[(a, b, c)]
                },
        decreases z1 - z,
    {
        fill_rect_z(voxels, x0, x1, y0, y1, z, v);
        z = z + 1;
    }
}

/// The column of voxels one building fills: its footprint, from the layer
/// above its package up to its height.
pub open spec fn bld_fill(b: BuildingV, oz: int, x: int, y: int, z: int) -> bool {
    &&& b.rect.pos_w <= x < b.rect.pos_w + b.rect.width
    &&& b.rect.pos_d <= y < b.rect.pos_d + b.rect.depth
    &&& oz + 1 <= z < oz + 1 + b.height
}

/// The voxels a package fills when rasterised at layer `oz`: its own
/// footprint on that layer, each child package one layer up, and each
/// building as a column above the layer.
pub open spec fn in_fill(p: PackageV, oz: int, x: int, y: int, z: int) -> bool
    decreases p,
{
    ||| (z == oz && p.rect.pos_w <= x < p.rect.pos_w + p.rect.width && p.rect.pos_d <= y
        < p.rect.pos_d + p.rect.depth)
    ||| exists|i: int| 0 <= i < p.packages.len() && in_fill(#[trigger] p.packages[i], oz + 1, x, y, z)
    ||| exists|i: int| 0 <= i < p.buildings.len() && bld_fill(#[trigger] p.buildings[i], oz, x, y, z)
}

/// Rasterise a packed package into the voxel array at layer `oz`: exactly
/// the voxels of `in_fill` are set to one, everything else is untouched.
pub fn fill_from_package(pkg: &Package, voxels: &mut VoxelArray, oz: usize)
    requires
        packed_wf(pview(*pkg)),
        pkg.rect.pos_w + pkg.rect.width <= voxel_extents(*old(voxels)).0,
        pkg.rect.pos_d + pkg.rect.depth <= voxel_extents(*old(voxels)).1,
        oz + pkg_height(pview(*pkg)) <= voxel_extents(*old(voxels)).2,
        voxel_extents(*old(voxels)).2 <= usize::MAX,
    ensures
        voxel_extents(*final(voxels)) == voxel_extents(*old(voxels)),
        forall|x: int, y: int, z: int|
            #![auto]
            voxel_cells(*final(voxels))[(x, y, z)] == if in_fill(pview(*pkg), oz as int, x, y, z) {
                1u8
            } else {
                voxel_cells(*old(voxels))[(x, y, z)]
            },
    decreases *pkg,
{
    let ghost orig = *old(voxels);
    let ghost pv = pview(*pkg);
    proof {
        lemma_blds_hmax_nonneg(pv.buildings);
        lemma_pkgs_hmax_nonneg(pv.packages);
        assert(pkg_height(pv) >= 1);
        lemma_pviews(pkg.packages@);
    }
    let ox = pkg.rect.pos_w as usize;
    let oy = pkg.rect.pos_d as usize;
    let w = pkg.rect.width as usize;
    let d = pkg.rect.depth as usize;
    fill_rect_z(voxels, ox, ox + w, oy, oy + d, oz, 1);
    let mut i: usize = 0;
    while i < pkg.packages.len()
        invariant
            i <= pkg.packages@.len(),
            pv == pview(*pkg),
            packed_wf(pv),
            pkg.rect.pos_w + pkg.rect.width <= voxel_extents(orig).0,
            pkg.rect.pos_d + pkg.rect.depth <= voxel_extents(orig).1,
            oz + pkg_height(pv) <= voxel_extents(orig).2,
            voxel_extents(orig).2 <= usize::MAX,
            voxel_extents(*voxels) == voxel_extents(orig),
            forall|x: int, y: int, z: int|
                #![auto]
                voxel_cells(*voxels)[(x, y, z)] == if (z == oz && pv.rect.pos_w <= x
                    < pv.rect.pos_w + pv.rect.width && pv.rect.pos_d <= y < pv.rect.pos_d
                    + pv.rect.depth) || (exists|j: int|
                    0 <= j < i && in_fill(#[trigger] pv.packages[j], oz + 1, x, y, z)) {
                    1u8
                } else {
                    voxel_cells(orig)[(x, y, z)]
                },
        decreases pkg.packages@.len() - i,
    {
        let ghost prev = *voxels;
        proof {
            lemma_pviews(pkg.packages@);
            assert(pview(pkg.packages@[i as int]) == pv.packages[i as int]);
            assert(packed_wf(pv.packages[i as int]));
            assert(child_rects(pv)[i as int] == pv.packages[i as int].rect);
            assert(rect_in(
                pv.packages[i as int].rect,
                pv.rect.width as int,
                pv.rect.depth as int,
            ));
            lemma_pkgs_hmax_elt(pv.packages, i as int);
            assert(pkg_height(pv.packages[i as int]) <= pkgs_hmax(pv.packages));
            assert(oz + 1 + pkg_height(pv.packages[i as int]) <= voxel_extents(orig).2);
        }
        fill_from_package(&pkg.packages[i], voxels, oz + 1);
        proof {
            let chv = pv.packages[i as int];
            assert forall|x: int, y: int, z: int|
                #![auto]
                voxel_cells(*voxels)[(x, y, z)] == if (z == oz && pv.rect.pos_w <= x
                    < pv.rect.pos_w + pv.rect.width && pv.rect.pos_d <= y < pv.rect.pos_d
                    + pv.rect.depth) || (exists|j: int|
                    0 <= j < i + 1 && in_fill(#[trigger] pv.packages[j], oz + 1, x, y, z)) {
                    1u8
                } else {
                    voxel_cells(orig)[(x, y, z)]
                } by {
                if in_fill(chv, oz + 1, x, y, z) {
                    assert(in_fill(pv.packages[i as int], oz + 1, x, y, z));
                }
            }
        }
        i = i + 1;
    }
    let ghost after_pkgs = *voxels;
    let mut k: usize = 0;
    while k < pkg.buildings.len()
        invariant
            k <= pkg.buildings@.len(),
            pv == pview(*pkg),
            packed_wf(pv),
            pkg.rect.pos_w + pkg.rect.width <= voxel_extents(orig).0,
            pkg.rect.pos_d + pkg.rect.depth <= voxel_extents(orig).1,
            oz + pkg_height(pv) <= voxel_extents(orig).2,
            voxel_extents(orig).2 <= usize::MAX,
            voxel_extents(*voxels) == voxel_extents(orig),
            forall|x: int, y: int, z: int|
                #![auto]
                voxel_cells(*voxels)[(x, y, z)] == if (z == oz && pv.rect.pos_w <= x
                    < pv.rect.pos_w + pv.rect.width && pv.rect.pos_d <= y < pv.rect.pos_d
                    + pv.rect.depth) || (exists|j: int|
                    0 <= j < pv.packages.len() && in_fill(#[trigger] pv.packages[j], oz + 1, x, y, z))
                    || (exists|j: int|
                    0 <= j < k && bld_fill(#[trigger] pv.buildings[j], oz as int, x, y, z)) {
                    1u8
                } else {
                    voxel_cells(orig)[(x, y, z)]
                },
        decreases pkg.buildings@.len() - k,
    {
        proof {
            assert(pv.buildings[k as int] == crate::codecity::bview(pkg.buildings@[k as int]));
            assert(child_rects(pv)[pv.packages.len() + k] == pv.buildings[k as int].rect);
            assert(rect_in(
                pv.buildings[k as int].rect,
                pv.rect.width as int,
                pv.rect.depth as int,
            ));
            lemma_blds_hmax_elt(pv.buildings, k as int);
            assert(pv.buildings[k as int].height <= blds_hmax(pv.buildings));
            assert(oz + 1 + pv.buildings[k as int].height <= voxel_extents(orig).2);
        }
        let px = pkg.buildings[k].rect.pos_w as usize;
        let py = pkg.buildings[k].rect.pos_d as usize;
        let bw = pkg.buildings[k].rect.width as usize;
        let bd = pkg.buildings[k].rect.depth as usize;
        let h = pkg.buildings[k].height as usize;
        fill_box(voxels, px, px + bw, py, py + bd, oz + 1, oz + 1 + h, 1);
        proof {
            assert forall|x: int, y: int, z: int|
                #![auto]
                voxel_cells(*voxels)[(x, y, z)] == if (z == oz && pv.rect.pos_w <= x
                    < pv.rect.pos_w + pv.rect.width && pv.rect.pos_d <= y < pv.rect.pos_d
                    + pv.rect.depth) || (exists|j: int|
                    0 <= j < pv.packages.len() && in_fill(#[trigger] pv.packages[j], oz + 1, x, y, z))
                    || (exists|j: int|
                    0 <= j < k + 1 && bld_fill(#[trigger] pv.buildings[j], oz as int, x, y, z)) {
                    1u8
                } else {
                    voxel_cells(orig)[(x, y, z)]
                } by {
                if bld_fill(pv.buildings[k as int], oz as int, x, y, z) {
                    assert(0 <= k < k + 1 && bld_fill(pv.buildings[k as int], oz as int, x, y, z));
                }
            }
        }
        k = k + 1;
    }
    proof {
        assert forall|x: int, y: int, z: int|
            #![auto]
            voxel_cells(*voxels)[(x, y, z)] == if in_fill(pv, oz as int, x, y, z) {
                1u8
            } else {
                voxel_cells(orig)[(x, y, z)]
            } by {}
    }
}

/// Rasterise the packed city into a fresh voxel array sized by the root's
/// footprint and height. The root must sit at the origin, as an unplaced
/// root does.
pub fn build_array(root: &Package) -> (r: VoxelArray)
    requires
        packed_wf(pview(*root)),
        root.rect.pos_w == 0,
        root.rect.pos_d == 0,
        pkg_height(pview(*root)) <= u16::MAX,
    ensures
        voxel_extents(r) == (
            root.rect.width as int,
            root.rect.depth as int,
            pkg_height(pview(*root)),
        ),
        forall|x: int, y: int, z: int|
            #![auto]
            0 <= x < voxel_extents(r).0 && 0 <= y < voxel_extents(r).1 && 0 <= z < voxel_extents(
                r,
            ).2 ==> voxel_cells(r)[(x, y, z)] == (if in_fill(pview(*root), 0, x, y, z) {
                1u8
            } else {
                0u8
            }),
{
    let height = root.height();
    let (width, depth) = root.size();
    let mut voxels = voxels_new(width as usize, depth as usize, height as usize, 0);
    fill_from_package(root, &mut voxels, 0);
    voxels
}

/// The node index inside a blob: x fastest, then y, then z.
pub open spec fn node_pos_spec(x: int, y: int, z: int) -> int {
    (z * 16 + y) * 16 + x
}

/// The node index inside a blob.
pub fn node_pos(x: usize, y: usize, z: usize) -> (r: usize)
    requires
        x < 16,
        y < 16,
        z < 16,
    ensures
        r == node_pos_spec(x as int, y as int, z as int),
        r < 4096,
{
    (z * 16 + y) * 16 + x
}

/// The position of a blob in the world: x fastest, then the vertical y,
/// then z.
pub open spec fn compute_position_spec(x: int, y: int, z: int) -> int {
    x + 4096 * (y + 4096 * z)
}

/// The position of a blob in the world.
pub fn compute_position(x: usize, y: usize, z: usize) -> (r: usize)
    requires
        x + 4096 * (y + 4096 * z) <= usize::MAX,
        y + 4096 * z <= usize::MAX,
    ensures
        r == compute_position_spec(x as int, y as int, z as int),
{
    x + 4096 * (y + 4096 * z)
}

/// A voxel is lit for the blob cutter: strictly inside the extents and set
/// to one.
pub open spec fn voxel_lit(a: VoxelArray, x: int, y: int, z: int) -> bool {
    &&& x + 1 < voxel_extents(a).0
    &&& y + 1 < voxel_extents(a).1
    &&& z + 1 < voxel_extents(a).2
    &&& voxel_cells(a)[(x, y, z)] == 1u8
}

fn filled_u16(n: usize, v: u16) -> (r: Vec<u16>)
    ensures
        r@.len() == n,
        forall|i: int| 0 <= i < n ==> r@[i] == v,
{
    let mut out: Vec<u16> = Vec::new();
    let mut i: usize = 0;
    while i < n
        invariant
            i <= n,
            out@.len() == i,
            forall|j: int| 0 <= j < i ==> out@[j] == v,
        decreases n - i,
    {
        out.push(v);
        i = i + 1;
    }
    out
}

fn filled_u8(n: usize, v: u8) -> (r: Vec<u8>)
    ensures
        r@.len() == n,
        forall|i: int| 0 <= i < n ==> r@[i] == v,
{
    let mut out: Vec<u8> = Vec::new();
    let mut i: usize = 0;
    while i < n
        invariant
            i <= n,
            out@.len() == i,
            forall|j: int| 0 <= j < i ==> out@[j] == v,
        decreases n - i,
    {
        out.push(v);
        i = i + 1;
    }
    out
}

/// Cut the 16-by-16-by-16 box of voxels at `(sx, sy, sz)` into a node blob:
/// a lit voxel becomes stone at full light, every other node stays air.
/// Inside the blob the world's vertical runs along the voxels' height axis.
pub fn voxels_to_blob(voxels: &VoxelArray, sx: usize, sy: usize, sz: usize) -> (r: NodeBlob)
    requires
        sx + 16 <= usize::MAX,
        sy + 16 <= usize::MAX,
        sz + 16 <= usize::MAX,
    ensures
        blob_wf(r),
        forall|i: int|
            #![auto]
            0 <= i < 4096 ==> r.param0@[i] == (if voxel_lit(
                *voxels,
                sx + (i % 16),
                sy + (i / 256),
                sz + ((i / 16) % 16),
            ) {
                0u16
            } else {
                3u16
            }),
        forall|i: int|
            #![auto]
            0 <= i < 4096 ==> r.param1@[i] == (if voxel_lit(
                *voxels,
                sx + (i % 16),
                sy + (i / 256),
                sz + ((i / 16) % 16),
            ) {
                0xfu8
            } else {
                0u8
            }),
        forall|i: int| 0 <= i < 4096 ==> r.param2@[i] == 0u8,
{
    let mut parr: Vec<u16> = filled_u16(4096, 0x3);
    let mut parr2: Vec<u8> = filled_u8(4096, 0x0);
    let parr3: Vec<u8> = filled_u8(4096, 0x0);
    let mut dx: usize = 0;
    while dx < 16
        invariant
            dx <= 16,
            sx + 16 <= usize::MAX,
            sy + 16 <= usize::MAX,
            sz + 16 <= usize::MAX,
            parr@.len() == 4096,
            parr2@.len() == 4096,
            forall|i: int|
                #![auto]
                0 <= i < 4096 ==> parr@[i] == (if i % 16 < dx && voxel_lit(
                    *voxels,
                    sx + (i % 16),
                    sy + (i / 256),
                    sz + ((i / 16) % 16),
                ) {
                    0u16
                } else {
                    3u16
                }),
            forall|i: int|
                #![auto]
                0 <= i < 4096 ==> parr2@[i] == (if i % 16 < dx && voxel_lit(
                    *voxels,
                    sx + (i % 16),
                    sy + (i / 256),
                    sz + ((i / 16) % 16),
                ) {
                    0xfu8
                } else {
                    0u8
                }),
        decreases 16 - dx,
    {
        let mut dy: usize = 0;
        while dy < 16
            invariant
                dx < 16,
                dy <= 16,
                sx + 16 <= usize::MAX,
                sy + 16 <= usize::MAX,
                sz + 16 <= usize::MAX,
                parr@.len() == 4096,
                parr2@.len() == 4096,
                forall|i: int|
                    #![auto]
                    0 <= i < 4096 ==> parr@[i] == (if (i % 16 < dx || (i % 16 == dx && i / 256
                        < dy)) && voxel_lit(
                        *voxels,
                        sx + (i % 16),
                        sy + (i / 256),
                        sz + ((i / 16) % 16),
                    ) {
                        0u16
                    } else {
                        3u16
                    }),
                forall|i: int|
                    #![auto]
                    0 <= i < 4096 ==> parr2@[i] == (if (i % 16 < dx || (i % 16 == dx && i / 256
                        < dy)) && voxel_lit(
                        *voxels,
                        sx + (i % 16),
                        sy + (i / 256),
                        sz + ((i / 16) % 16),
                    ) {
                        0xfu8
                    } else {
                        0u8
                    }),
            decreases 16 - dy,
        {
            let mut dz: usize = 0;
            while dz < 16
                invariant
                    dx < 16,
                    dy < 16,
                    dz <= 16,
                    sx + 16 <= usize::MAX,
                    sy + 16 <= usize::MAX,
                    sz + 16 <= usize::MAX,
                    parr@.len() == 4096,
                    parr2@.len() == 4096,
                    forall|i: int|
                        #![auto]
                        0 <= i < 4096 ==> parr@[i] == (if (i % 16 < dx || (i % 16 == dx && i / 256
                            < dy) || (i % 16 == dx && i / 256 == dy && (i / 16) % 16 < dz))
                            && voxel_lit(
                            *voxels,
                            sx + (i % 16),
                            sy + (i / 256),
                            sz + ((i / 16) % 16),
                        ) {
                            0u16
                        } else {
                            3u16
                        }),
                    forall|i: int|
                        #![auto]
                        0 <= i < 4096 ==> parr2@[i] == (if (i % 16 < dx || (i % 16 == dx && i / 256
                            < dy) || (i % 16 == dx && i / 256 == dy && (i / 16) % 16 < dz))
                            && voxel_lit(
                            *voxels,
                            sx + (i % 16),
                            sy + (i / 256),
                            sz + ((i / 16) % 16),
                        ) {
                            0xfu8
                        } else {
                            0u8
                        }),
                decreases 16 - dz,
            {
                let x = sx + dx;
                let y = sy + dy;
                let z = sz + dz;
                let (e0, e1, e2) = voxels_extents(voxels);
                let lit = x + 1 < e0 && y + 1 < e1 && z + 1 < e2 && voxels_get(voxels, x, y, z)
                    == 1;
                proof {
                    let i0 = node_pos_spec(dx as int, dz as int, dy as int);
                    assert(0 <= i0 < 4096);
                    assert(i0 % 16 == dx && i0 / 256 == dy && (i0 / 16) % 16 == dz)
                        by (nonlinear_arith)
                        requires
                            i0 == ((dy as int) * 16 + (dz as int)) * 16 + (dx as int),
                            0 <= dx < 16,
                            0 <= dy < 16,
                            0 <= dz < 16,
                    ;
                    assert forall|i: int|
                        #![trigger (i % 16)]
                        0 <= i < 4096 && i != i0 implies !(i % 16 == dx && i
                        / 256 == dy && (i / 16) % 16 == dz) by {
                        assert(i == (i / 256) * 256 + ((i / 16) % 16) * 16 + i % 16)
                            by (nonlinear_arith)
                            requires
                                0 <= i < 4096,
                        ;
                    }
                }
                if lit {
                    let i0 = node_pos(dx, dz, dy);
                    parr[i0] = 0x0;
                    parr2[i0] = 0xf;
                }
                dz = dz + 1;
            }
            dy = dy + 1;
        }
        dx = dx + 1;
    }
    NodeBlob { param0: parr, param1: parr2, param2: parr3 }
}

/// The node name table every block carries.
pub open spec fn node_table_text() -> Seq<char> {
    "0000000000024900000A0000000D64656661756C743A73746F6E650001000C64656661756C743A73616E640002000C64656661756C743A64697274000300036169720004001064656661756C743A646972745F6472790005001764656661756C743A646972745F776974685F67726173730006001564656661756C743A77617465725F666C6F77696E670007000F64656661756C743A67726173735F310008001164656661756C743A7369676E5F77616C6C0009000E64656661756C743A67726176656C0A0000"@
}

/// What zlib compression at the default level makes of a byte stream; the
/// result depends on the input bytes alone.
pub uninterp spec fn zlib_of(data: Seq<u8>) -> Seq<u8>;

/// Relies on flate2's `write::ZlibEncoder` at `Compression::default()`:
/// writing into a vector-backed encoder cannot fail, and the compressed
/// stream is a function of the input bytes alone.
#[verifier::external_body]
fn zlib_compress(data: &Vec<u8>) -> (r: Vec<u8>)
    ensures
        r@ == zlib_of(data@),
{
    let mut e = flate2::write::ZlibEncoder::new(Vec::new(), flate2::Compression::default());
    let _ = std::io::Write::write_all(&mut e, data.as_slice());
    match e.finish() {
        Ok(v) => v,
        Err(_) => Vec::new(),
    }
}

/// The database text of one world block: a header, the compressed node
/// data, the compressed sign metadata, and the node name table.
pub open spec fn block_hex_spec(b: NodeBlob, sign: Seq<u8>, sign_pos: int) -> Seq<char> {
    "19060202"@ + hex_of(zlib_of(blob_bytes(b))) + hex_of(zlib_of(meta_bytes_spec(sign, sign_pos)))
        + node_table_text()
}

/// Encode one world block, with a sign carrying `sign` at node `sign_pos`,
/// as the hex text its database row holds.
pub fn block_hex(blob: &NodeBlob, sign: &str, sign_pos: u16) -> (r: String)
    requires
        blob_wf(*blob),
    ensures
        r@ == block_hex_spec(*blob, sign.spec_bytes(), sign_pos as int),
{
    let blob_encoded = to_bytes(blob);
    let blob_compressed = zlib_compress(&blob_encoded);
    let blob_h = hex(&blob_compressed);
    let meta_encoded = meta_bytes(sign, sign_pos);
    let meta_compressed = zlib_compress(&meta_encoded);
    let meta_h = hex(&meta_compressed);
    let mut s = String::from_str("19060202");
    s.append(blob_h.as_str());
    s.append(meta_h.as_str());
    s.append("0000000000024900000A0000000D64656661756C743A73746F6E650001000C64656661756C743A73616E640002000C64656661756C743A64697274000300036169720004001064656661756C743A646972745F6472790005001764656661756C743A646972745F776974685F67726173730006001564656661756C743A77617465725F666C6F77696E670007000F64656661756C743A67726173735F310008001164656661756C743A7369676E5F77616C6C0009000E64656661756C743A67726176656C0A0000");
    s
}

} // verus!
