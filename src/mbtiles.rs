use std::collections::HashMap;
use vstd::prelude::*;
use vstd::utf8::encode_utf8;

use crate::error::CotarError;
use crate::fnv1a::{fnv1a_64, fnv1a_spec};

verus! {

broadcast use vstd::std_specs::hash::group_hash_axioms;

/// Payloads seen so far, by size and FNV-1a hash, with the path each was first stored under.
pub struct TileHashTree {
    data: HashMap<u128, String>,
}

/// What to write to the tar for one tile.
#[derive(Debug, Clone, PartialEq, Eq)]
pub enum TileAction {
    /// Store the payload under the tile's path.
    Write,
    /// Store a hard link from the tile's path to this earlier path.
    Link(String),
    /// Leave the tile out.
    Drop,
}

/// The key under which a payload of `file_size` bytes with hash `hash` is remembered.
pub open spec fn tile_key(file_size: usize, hash: u64) -> u128 {
    (file_size as int * 0x1_0000_0000_0000_0000 + hash as int) as u128
}

/// `suffix` ends `s`, byte for byte.
pub open spec fn ends_with_bytes(s: Seq<u8>, suffix: Seq<u8>) -> bool {
    suffix.len() <= s.len() && s.subrange(s.len() - suffix.len(), s.len() as int) == suffix
}

/// 2 to the power `z`: the number of tiles along one side at zoom `z`.
pub open spec fn tile_side(z: nat) -> nat
    decreases z,
{
    if z == 0 {
        1
    } else {
        2 * tile_side((z - 1) as nat)
    }
}

/// The decimal digit for `d`.
pub open spec fn digit_char(d: nat) -> char {
    if d == 0 {
        '0'
    } else if d == 1 {
        '1'
    } else if d == 2 {
        '2'
    } else if d == 3 {
        '3'
    } else if d == 4 {
        '4'
    } else if d == 5 {
        '5'
    } else if d == 6 {
        '6'
    } else if d == 7 {
        '7'
    } else if d == 8 {
        '8'
    } else {
        '9'
    }
}

/// Decimal notation of `n`, without leading zeros.
pub open spec fn decimal(n: nat) -> Seq<char>
    decreases n,
{
    if n < 10 {
        seq![digit_char(n)]
    } else {
        decimal(n / 10).push(digit_char(n % 10))
    }
}

/// The path of a tile in the tar: `tiles/{z}/{x}/{y}.{format}`, then `.gz`
/// when the payload is gzip-compressed.
pub open spec fn tile_path_spec(z: u32, x: u32, y: u32, format: Seq<char>, gzip: bool) -> Seq<
    char,
> {
    let base = "tiles/"@ + decimal(z as nat) + "/"@ + decimal(x as nat) + "/"@ + decimal(y as nat)
        + "."@ + format;
    if gzip {
        base + ".gz"@
    } else {
        base
    }
}

/// The tile format named by the metadata rows: the value of the last row named
/// `format`, else `pbf`.
pub open spec fn format_spec(rows: Seq<(String, String)>) -> Seq<char>
    decreases rows.len(),
{
    if rows.len() == 0 {
        "pbf"@
    } else if rows.last().0@ == "format"@ {
        rows.last().1@
    } else {
        format_spec(rows.drop_last())
    }
}

impl View for TileHashTree {
    type V = Map<u128, Seq<char>>;

    /// The path remembered for each key.
    closed spec fn view(&self) -> Map<u128, Seq<char>> {
        self.data@.map_values(|p: String| p@)
    }
}

impl TileHashTree {
    /// An empty tree.
    pub fn new() -> (r: TileHashTree)
        ensures
            r@ == Map::<u128, Seq<char>>::empty(),
    {
        let r = TileHashTree { data: HashMap::with_capacity(1 << 16) };
        assert(r@ =~= Map::<u128, Seq<char>>::empty());
        r
    }

    /// Remembers `path` for a payload of `file_size` bytes with hash `hash`,
    /// unless such a payload was seen before: then gives the path it was seen under.
    pub fn insert(&mut self, file_size: usize, hash: u64, path: &str) -> (r: Option<String>)
        ensures
            ({
                let k = tile_key(file_size, hash);
                if old(self)@.contains_key(k) {
                    r is Some && r->Some_0@ == old(self)@[k] && final(self)@ == old(self)@
                } else {
                    r is None && final(self)@ == old(self)@.insert(k, path@)
                }
            }),
    {
        let key: u128 = file_size as u128 * 0x1_0000_0000_0000_0000 + hash as u128;
        match self.data.get(&key) {
            Some(p) => Some(p.clone()),
            None => {
                let ghost before = self.data@;
                self.data.insert(key, path.to_string());
                assert(self@ =~= old(self)@.insert(key, path@));
                None
            },
        }
    }

    /// Number of distinct payloads remembered.
    pub fn len(&self) -> (r: usize)
        ensures
            r == self@.len(),
    {
        assert(self@.dom() =~= self.data@.dom());
        self.data.len()
    }
}

/// Whether `buf` starts like a gzip stream, with the bytes 0x1F 0x8B.
pub fn is_gzip(buf: &[u8]) -> (r: bool)
    ensures
        r == (buf@.len() >= 2 && buf@[0] == 0x1f && buf@[1] == 0x8b),
{
    buf.len() >= 2 && buf[0] == 0x1f && buf[1] == 0x8b
}

/// Whether `s` ends with `suffix`.
pub fn has_suffix(s: &str, suffix: &str) -> (r: bool)
    ensures
        r == ends_with_bytes(encode_utf8(s@), encode_utf8(suffix@)),
{
    let a = s.as_bytes();
    let b = suffix.as_bytes();
    if b.len() > a.len() {
        return false;
    }
    let alen: usize = a.len();
    let start = alen - b.len();
    let mut i: usize = 0;
    while i < b.len()
        invariant
            a@ == encode_utf8(s@),
            b@ == encode_utf8(suffix@),
            b@.len() <= a@.len(),
            alen == a@.len(),
            start == a@.len() - b@.len(),
            i <= b@.len(),
            forall|j: int| 0 <= j < i ==> a@[start + j] == b@[j],
        decreases b@.len() - i,
    {
        if a[start + i] != b[i] {
            assert(a@.subrange(start as int, a@.len() as int)[i as int] != b@[i as int]);
            return false;
        }
        i = i + 1;
    }
    assert(a@.subrange(start as int, a@.len() as int) =~= b@);
    true
}

/// Checks the file names and options of a conversion: the input must end in
/// `.mbtiles`, the output in `.tar`, and dropping duplicates needs deduplication.
pub fn check_convert_options(
    input: &str,
    output: &str,
    deduplicate: bool,
    drop_duplicates: bool,
) -> (r: Result<(), CotarError>)
    ensures
        r == if !ends_with_bytes(encode_utf8(input@), encode_utf8(".mbtiles"@)) {
            Err(CotarError::ConverterInputMismatch)
        } else if !ends_with_bytes(encode_utf8(output@), encode_utf8(".tar"@)) {
            Err(CotarError::ConverterInputMismatch)
        } else if !deduplicate && drop_duplicates {
            Err(CotarError::ConflictingOptions)
        } else {
            Ok(())
        },
{
    let mbtiles = ".mbtiles";
    let tar = ".tar";
    if !has_suffix(input, mbtiles) {
        return Err(CotarError::ConverterInputMismatch);
    }
    if !has_suffix(output, tar) {
        return Err(CotarError::ConverterInputMismatch);
    }
    if !deduplicate && drop_duplicates {
        return Err(CotarError::ConflictingOptions);
    }
    Ok(())
}

/// The row of a tile at zoom `z` counted from the top, given its row counted
/// from the bottom as MBTiles stores it; none when `z` or `y` is out of range.
pub fn flip_y(z: u32, y: u32) -> (r: Option<u32>)
    ensures
        r == if z < 32 && (y as nat) < tile_side(z as nat) {
            Some((tile_side(z as nat) - 1 - y) as u32)
        } else {
            None::<u32>
        },
{
    if z >= 32 {
        return None;
    }
    let mut side: u64 = 1;
    let mut i: u32 = 0;
    while i < z
        invariant
            i <= z < 32,
            side == tile_side(i as nat),
            side <= 0x8000_0000,
        decreases z - i,
    {
        assert(tile_side((i + 1) as nat) == 2 * tile_side(i as nat));
        proof {
            lemma_tile_side_bound(i as nat);
        }
        side = side * 2;
        i = i + 1;
        proof {
            lemma_tile_side_bound(i as nat);
        }
    }
    if y as u64 >= side {
        return None;
    }
    Some((side - 1 - y as u64) as u32)
}

proof fn lemma_tile_side_bound(z: nat)
    requires
        z < 32,
    ensures
        tile_side(z) <= 0x8000_0000,
        tile_side(z) >= 1,
    decreases z,
{
    if z > 0 {
        lemma_tile_side_bound((z - 1) as nat);
        lemma_tile_side_mono((z - 1) as nat, 30);
        reveal_with_fuel(tile_side, 32);
    }
}

proof fn lemma_tile_side_mono(a: nat, b: nat)
    requires
        a <= b,
    ensures
        tile_side(a) <= tile_side(b),
    decreases b,
{
    if a < b {
        lemma_tile_side_mono(a, (b - 1) as nat);
    }
}

/// Relies on `u32::to_string`, std's `Display` for integers: decimal digits without leading zeros.
#[verifier::external_body]
fn decimal_string(n: u32) -> (r: String)
    ensures
        r@ == decimal(n as nat),
{
    n.to_string()
}

/// The path of a tile in the tar.
pub fn tile_path(z: u32, x: u32, y: u32, format: &str, gzip: bool) -> (r: String)
    ensures
        r@ == tile_path_spec(z, x, y, format@, gzip),
{
    let mut p = String::from_str("tiles/");
    p.append(decimal_string(z).as_str());
    p.append("/");
    p.append(decimal_string(x).as_str());
    p.append("/");
    p.append(decimal_string(y).as_str());
    p.append(".");
    p.append(format);
    if gzip {
        p.append(".gz");
    }
    p
}

/// The tile format that the metadata rows name.
pub fn format_from_metadata(rows: &Vec<(String, String)>) -> (r: String)
    ensures
        r@ == format_spec(rows@),
{
    let name = String::from_str("format");
    let mut i: usize = rows.len();
    assert(rows@.subrange(0, i as int) =~= rows@);
    while i > 0
        invariant
            i <= rows@.len(),
            name@ == "format"@,
            format_spec(rows@) == format_spec(rows@.subrange(0, i as int)),
        decreases i,
    {
        let ghost prefix = rows@.subrange(0, i as int);
        assert(prefix.drop_last() =~= rows@.subrange(0, i as int - 1));
        if rows[i - 1].0 == name {
            return rows[i - 1].1.clone();
        }
        i = i - 1;
    }
    assert(rows@.subrange(0, 0) =~= Seq::<(String, String)>::empty());
    String::from_str("pbf")
}

/// Decides what to write for one tile whose payload is `data`: with
/// deduplication, a payload seen before (same size and FNV-1a hash) becomes a
/// link to its first path, or is dropped when asked.
pub fn plan_tile(
    tree: &mut TileHashTree,
    path: &str,
    data: &[u8],
    deduplicate: bool,
    drop_duplicates: bool,
) -> (r: TileAction)
    ensures
        ({
            let k = tile_key(data@.len() as usize, fnv1a_spec(data@));
            if !deduplicate {
                r == TileAction::Write && final(tree)@ == old(tree)@
            } else if old(tree)@.contains_key(k) {
                final(tree)@ == old(tree)@ && if drop_duplicates {
                    r == TileAction::Drop
                } else {
                    r is Link && r->Link_0@ == old(tree)@[k]
                }
            } else {
                r == TileAction::Write && final(tree)@ == old(tree)@.insert(k, path@)
            }
        }),
{
    if !deduplicate {
        return TileAction::Write;
    }
    let hash = fnv1a_64(data);
    match tree.insert(data.len(), hash, path) {
        None => TileAction::Write,
        Some(first) => {
            if drop_duplicates {
                TileAction::Drop
            } else {
                TileAction::Link(first)
            }
        },
    }
}

} // verus!
