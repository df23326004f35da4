//! The inputs of the command-line tools: where a graph comes from, and the
//! partial tiling read from a list of tiles.

use vstd::prelude::*;
use vstd::string::{StringExecFns, StringSliceAdditionalSpecFns};
use std::collections::BTreeMap;
use crate::node::Node;
use crate::color::Color;

verus! {

broadcast use {
    vstd::laws_cmp::group_laws_cmp,
    vstd::std_specs::btree::group_btree_axioms,
};

/// Where a graph comes from: a file that lists its nodes, or the triangle
/// of the given side length.
#[derive(Clone, Debug)]
pub enum GraphSource {
    FromFile(String),
    Triangle(usize),
}

/// An ASCII letter in lower case, other characters unchanged.
pub open spec fn ascii_lower(c: char) -> char {
    if 'A' <= c && c <= 'Z' {
        ((c as u32) + 32) as char
    } else {
        c
    }
}

/// `str::split_once` on `=`: the text before and the text after the first
/// `=`, and nothing when there is no `=`.
#[verifier::external_body]
fn split_at_equals<'a>(s: &'a str) -> (r: Option<(&'a str, &'a str)>)
    ensures
        r is None <==> !s@.contains('='),
        r matches Some(p) ==> exists|i: int| 0 <= i < s@.len() && s@[i] == '=' && !s@.take(i).contains('=')
            && p.0@ == s@.take(i) && p.1@ == s@.skip(i + 1),
{
    s.split_once('=')
}

/// `str::to_ascii_lowercase`: the text with its ASCII letters in lower
/// case and every other character unchanged.
#[verifier::external_body]
fn ascii_lowercase(s: &str) -> (r: String)
    ensures
        r@ == s@.map_values(|c: char| ascii_lower(c)),
{
    s.to_ascii_lowercase()
}

/// The byte of an ASCII decimal digit.
pub open spec fn is_digit(b: u8) -> bool {
    48 <= b <= 57
}

/// The number that the digits `ds` write in base ten.
pub open spec fn digits_value(ds: Seq<u8>) -> nat
    decreases ds.len(),
{
    if ds.len() == 0 {
        0
    } else {
        digits_value(ds.drop_last()) * 10 + (ds.last() - 48) as nat
    }
}

/// The digits of a number: the text after an optional `+` sign.
pub open spec fn unsigned_digits(bs: Seq<u8>) -> Seq<u8> {
    if bs.len() > 0 && bs[0] == 43 {
        bs.skip(1)
    } else {
        bs
    }
}

/// The `usize` that the text `bs` writes: an optional `+` sign and at least
/// one decimal digit, of a value that fits.
pub open spec fn spec_parse_usize(bs: Seq<u8>) -> Option<usize> {
    let ds = unsigned_digits(bs);
    if ds.len() > 0 && (forall|i: int| 0 <= i < ds.len() ==> is_digit(#[trigger] ds[i])) && digits_value(ds) <= usize::MAX {
        Some(digits_value(ds) as usize)
    } else {
        None
    }
}

/// Reads a `usize` written in base ten, with an optional `+` sign.
pub fn parse_usize(s: &str) -> (r: Option<usize>)
    ensures
        r == spec_parse_usize(s.spec_bytes()),
{
    let bytes = s.as_bytes();
    let ghost bs = s.spec_bytes();
    let mut start: usize = 0;
    if bytes.len() > 0 && bytes[0] == 43u8 {
        start = 1;
    }
    let ghost ds = unsigned_digits(bs);
    proof {
        assert(ds == bs.skip(start as int));
    }
    if start >= bytes.len() {
        return None;
    }
    let mut value: usize = 0;
    let mut overflow = false;
    let mut all_digits = true;
    let mut i: usize = start;
    while i < bytes.len()
        invariant
            start <= i <= bytes@.len(),
            bytes@ == bs,
            ds == bs.skip(start as int),
            all_digits == forall|j: int| 0 <= j < i - start ==> is_digit(#[trigger] ds[j]),
            all_digits ==> (overflow == (digits_value(ds.take(i - start)) > usize::MAX)),
            all_digits && !overflow ==> value == digits_value(ds.take(i - start)),
        decreases bytes@.len() - i,
    {
        let b = bytes[i];
        let ghost k = i - start;
        proof {
            assert(ds[k as int] == b);
            assert(ds.take(k + 1).drop_last() == ds.take(k as int));
            assert(ds.take(k + 1).last() == b);
        }
        if b < 48u8 || b > 57u8 {
            all_digits = false;
        } else if all_digits && !overflow {
            let d = (b - 48u8) as usize;
            if value > (usize::MAX - d) / 10 {
                overflow = true;
                proof {
                    assert(value * 10 + d > usize::MAX) by (nonlinear_arith)
                        requires
                            value > (usize::MAX - d) / 10,
                            d <= 9,
                    ;
                }
            } else {
                proof {
                    assert(value * 10 + d <= usize::MAX) by (nonlinear_arith)
                        requires
                            value <= (usize::MAX - d) / 10,
                            d <= 9,
                    ;
                }
                value = value * 10 + d;
            }
        } else if all_digits {
            proof {
                assert(digits_value(ds.take(k + 1)) >= digits_value(ds.take(k as int)));
            }
        }
        i = i + 1;
    }
    proof {
        assert(ds.take(i - start) == ds);
    }
    if !all_digits || overflow {
        None
    } else {
        Some(value)
    }
}

impl GraphSource {
    /// Reads a graph source written `KIND=VALUE`: `file=PATH` (or
    /// `from-file=PATH`) for a file, `triangle=N` for the triangle of side
    /// `N`; the kind is read without regard to the case of ASCII letters.
    pub fn parse(s: &str) -> (r: Result<GraphSource, String>)
        ensures
            !s@.contains('=') ==> (r matches Err(m) && m@ == "expected format KIND=VALUE (e.g. file=path or triangle=5)"@),
            s@.contains('=') ==> exists|i: int| 0 <= i < s@.len() && s@[i] == '=' && !s@.take(i).contains('=') && ({
                let kind = s@.take(i).map_values(|c: char| ascii_lower(c));
                let val = s@.skip(i + 1);
                if kind == "file"@ || kind == "from-file"@ {
                    r matches Ok(GraphSource::FromFile(p)) && p@ == val
                } else if kind == "triangle"@ {
                    match spec_parse_usize(crate::cli::utf8_bytes(val)) {
                        Some(n) => r == Ok::<GraphSource, String>(GraphSource::Triangle(n)),
                        None => r matches Err(m) && m@ == "invalid triangle side length `"@ + val + "`"@,
                    }
                } else {
                    r matches Err(m) && m@ == "unknown input kind `"@ + kind + "` (expected `file` or `triangle`)"@
                }
            }),
    {
        match split_at_equals(s) {
            None => Err(String::from_str("expected format KIND=VALUE (e.g. file=path or triangle=5)")),
            Some((kind, val)) => {
                let lower = ascii_lowercase(kind);
                if lower == String::from_str("file") || lower == String::from_str("from-file") {
                    Ok(GraphSource::FromFile(val.to_owned()))
                } else if lower == String::from_str("triangle") {
                    match parse_usize(val) {
                        Some(n) => Ok(GraphSource::Triangle(n)),
                        None => {
                            let mut m = String::from_str("invalid triangle side length `");
                            m.append(val);
                            m.append("`");
                            Err(m)
                        },
                    }
                } else {
                    let mut m = String::from_str("unknown input kind `");
                    m.append(lower.as_str());
                    m.append("` (expected `file` or `triangle`)");
                    Err(m)
                }
            },
        }
    }
}

/// The UTF-8 bytes of a text.
pub open spec fn utf8_bytes(cs: Seq<char>) -> Seq<u8> {
    vstd::utf8::encode_utf8(cs)
}

/// The nodes of the tile `t` get the color `c`; the other nodes of `m` keep
/// theirs.
pub open spec fn tile_over(m: Map<Node, u8>, t: Seq<Node>, c: u8) -> Map<Node, u8> {
    Map::new(|n: Node| m.contains_key(n) || t.contains(n), |n: Node| if t.contains(n) { c } else { m[n] })
}

/// The numbers of the colors of a partial tiling.
pub open spec fn color_numbers(m: Map<Node, Color>) -> Map<Node, u8> {
    m.map_values(|c: Color| c@)
}

/// The partial tiling of a list of tiles: the nodes of the `i`-th tile get
/// the color `i + 1`, later tiles over earlier ones.
pub open spec fn tiles_map(ts: Seq<Seq<Node>>) -> Map<Node, u8>
    decreases ts.len(),
{
    if ts.len() == 0 {
        Map::empty()
    } else {
        tile_over(tiles_map(ts.drop_last()), ts.last(), ts.len() as u8)
    }
}

/// The tiles as sequences of nodes.
pub open spec fn tile_views(v: Seq<Vec<Node>>) -> Seq<Seq<Node>> {
    v.map_values(|t: Vec<Node>| t@)
}

/// The colors of a list of tiles: a node is colored exactly when some tile
/// holds it, and then with `i + 1` for the last tile `i` that holds it.
pub proof fn lemma_tiles_map_colors(ts: Seq<Seq<Node>>)
    requires
        ts.len() <= 255,
    ensures
        forall|n: Node| #[trigger] tiles_map(ts).contains_key(n) <==> exists|i: int| 0 <= i < ts.len() && (#[trigger] ts[i]).contains(n),
        forall|i: int, n: Node| 0 <= i < ts.len() && (#[trigger] ts[i]).contains(n)
            && (forall|j: int| i < j < ts.len() ==> !(#[trigger] ts[j]).contains(n))
            ==> #[trigger] tiles_map(ts)[n] == i + 1,
    decreases ts.len(),
{
    if ts.len() > 0 {
        let init = ts.drop_last();
        lemma_tiles_map_colors(init);
        let last = ts.last();
        assert(ts[ts.len() - 1] == last);
        assert forall|n: Node| #[trigger] tiles_map(ts).contains_key(n) <==> exists|i: int| 0 <= i < ts.len() && (#[trigger] ts[i]).contains(n) by {
            if tiles_map(init).contains_key(n) {
                let i = choose|i: int| 0 <= i < init.len() && (#[trigger] init[i]).contains(n);
                assert(ts[i] == init[i]);
            }
            if exists|i: int| 0 <= i < ts.len() && (#[trigger] ts[i]).contains(n) {
                let i = choose|i: int| 0 <= i < ts.len() && (#[trigger] ts[i]).contains(n);
                if i < ts.len() - 1 {
                    assert(init[i] == ts[i]);
                    assert(tiles_map(init).contains_key(n));
                }
            }
        }
        assert forall|i: int, n: Node| 0 <= i < ts.len() && (#[trigger] ts[i]).contains(n)
            && (forall|j: int| i < j < ts.len() ==> !(#[trigger] ts[j]).contains(n))
            implies #[trigger] tiles_map(ts)[n] == i + 1 by {
            if i < ts.len() - 1 {
                assert(!ts[ts.len() - 1].contains(n));
                assert(init[i] == ts[i]);
                assert forall|j: int| i < j < init.len() implies !(#[trigger] init[j]).contains(n) by {
                    assert(init[j] == ts[j]);
                    assert(!ts[j].contains(n));
                }
                assert(tiles_map(init).contains_key(n));
            }
        }
    }
}

/// With tiles that share no node, two colored nodes get the same color
/// exactly when they lie in the same tile.
pub proof fn lemma_disjoint_tiles_colors(ts: Seq<Seq<Node>>)
    requires
        ts.len() <= 255,
        forall|i: int, j: int, n: Node| 0 <= i < ts.len() && 0 <= j < ts.len() && i != j && #[trigger] ts[i].contains(n)
            ==> !(#[trigger] ts[j]).contains(n),
    ensures
        forall|i: int, j: int, a: Node, b: Node| #![trigger ts[i].contains(a), ts[j].contains(b)] 0 <= i < ts.len() && 0 <= j < ts.len()
            && ts[i].contains(a) && ts[j].contains(b)
            ==> (tiles_map(ts)[a] == tiles_map(ts)[b] <==> i == j),
{
    lemma_tiles_map_colors(ts);
    assert forall|i: int, j: int, a: Node, b: Node| #![trigger ts[i].contains(a), ts[j].contains(b)] 0 <= i < ts.len() && 0 <= j < ts.len()
        && ts[i].contains(a) && ts[j].contains(b)
        implies (tiles_map(ts)[a] == tiles_map(ts)[b] <==> i == j) by {
        assert forall|k: int| i < k < ts.len() implies !(#[trigger] ts[k]).contains(a) by {}
        assert forall|k: int| j < k < ts.len() implies !(#[trigger] ts[k]).contains(b) by {}
        assert(tiles_map(ts)[a] == i + 1);
        assert(tiles_map(ts)[b] == j + 1);
    }
}

/// The partial tiling that a list of tiles describes: the nodes of the
/// `i`-th tile get the color `i + 1`; a node in several tiles gets the
/// color of the last one.
pub fn tiling_from_tiles(tiles: &Vec<Vec<Node>>) -> (m: BTreeMap<Node, Color>)
    requires
        tiles@.len() <= 255,
    ensures
        color_numbers(m@) == tiles_map(tile_views(tiles@)),
        forall|n: Node| #[trigger] m@.contains_key(n) <==> exists|i: int| 0 <= i < tiles@.len() && (#[trigger] tiles@[i])@.contains(n),
        forall|i: int, n: Node| 0 <= i < tiles@.len() && (#[trigger] tiles@[i])@.contains(n)
            && (forall|j: int| i < j < tiles@.len() ==> !(#[trigger] tiles@[j])@.contains(n))
            ==> (#[trigger] m@[n])@ == i + 1,
{
    let mut m: BTreeMap<Node, Color> = BTreeMap::new();
    let mut i: usize = 0;
    proof {
        assert(tile_views(tiles@).take(0) == Seq::<Seq<Node>>::empty());
        assert(color_numbers(m@) =~= tiles_map(tile_views(tiles@).take(0)));
    }
    while i < tiles.len()
        invariant
            i <= tiles@.len() <= 255,
            color_numbers(m@) == tiles_map(tile_views(tiles@).take(i as int)),
        decreases tiles@.len() - i,
    {
        let tile = &tiles[i];
        let c = Color::new((i + 1) as u8);
        let ghost m0 = color_numbers(m@);
        let mut j: usize = 0;
        while j < tile.len()
            invariant
                j <= tile@.len(),
                i < 255,
                c@ == (i + 1) as u8,
                color_numbers(m@) == tile_over(m0, tile@.take(j as int), (i + 1) as u8),
            decreases tile@.len() - j,
        {
            let ghost before = m@;
            m.insert(tile[j], c);
            proof {
                assert(m@ == before.insert(tile@[j as int], c));
                assert(tile@.take(j + 1) == tile@.take(j as int).push(tile@[j as int]));
                let t1 = tile@.take(j as int);
                let t2 = tile@.take(j + 1);
                assert forall|n: Node| #[trigger] t2.contains(n) == (t1.contains(n) || n == tile@[j as int]) by {
                    if t2.contains(n) && n != tile@[j as int] {
                        let x = choose|x: int| 0 <= x < t2.len() && t2[x] == n;
                        assert(t1[x] == n);
                    }
                    if t1.contains(n) {
                        let x = choose|x: int| 0 <= x < t1.len() && t1[x] == n;
                        assert(t2[x] == n);
                    }
                    if n == tile@[j as int] {
                        assert(t2[j as int] == n);
                    }
                }
                assert forall|n: Node| #[trigger] color_numbers(m@).contains_key(n) == tile_over(m0, t2, (i + 1) as u8).contains_key(n) by {
                    assert(color_numbers(m@).contains_key(n) == m@.contains_key(n));
                    assert(color_numbers(before).contains_key(n) == before.contains_key(n));
                    assert(color_numbers(before).contains_key(n) == tile_over(m0, t1, (i + 1) as u8).contains_key(n));
                }
                assert forall|n: Node| #[trigger] color_numbers(m@).contains_key(n) implies color_numbers(m@)[n] == tile_over(m0, t2, (i + 1) as u8)[n] by {
                    assert(color_numbers(m@)[n] == m@[n]@);
                    if n != tile@[j as int] {
                        assert(m@[n] == before[n]);
                        assert(before.contains_key(n));
                        assert(color_numbers(before)[n] == before[n]@);
                        assert(color_numbers(before)[n] == tile_over(m0, t1, (i + 1) as u8)[n]);
                    }
                }
                assert(color_numbers(m@) =~= tile_over(m0, t2, (i + 1) as u8));
            }
            j = j + 1;
        }
        proof {
            let tv = tile_views(tiles@);
            assert(tile@.take(tile@.len() as int) == tile@);
            assert(tv.take(i + 1).drop_last() == tv.take(i as int));
            assert(tv.take(i + 1).last() == tile@);
        }
        i = i + 1;
    }
    proof {
        let tv = tile_views(tiles@);
        assert(tv.take(tiles@.len() as int) == tv);
        lemma_tiles_map_colors(tv);
        assert forall|n: Node| #[trigger] m@.contains_key(n) <==> exists|i: int| 0 <= i < tiles@.len() && (#[trigger] tiles@[i])@.contains(n) by {
            assert(m@.contains_key(n) == color_numbers(m@).contains_key(n));
            if tiles_map(tv).contains_key(n) {
                let i = choose|i: int| 0 <= i < tv.len() && (#[trigger] tv[i]).contains(n);
                assert(tv[i] == tiles@[i]@);
            }
            if exists|i: int| 0 <= i < tiles@.len() && (#[trigger] tiles@[i])@.contains(n) {
                let i = choose|i: int| 0 <= i < tiles@.len() && (#[trigger] tiles@[i])@.contains(n);
                assert(tv[i] == tiles@[i]@);
                assert(tiles_map(tv).contains_key(n));
            }
        }
        assert forall|i: int, n: Node| 0 <= i < tiles@.len() && (#[trigger] tiles@[i])@.contains(n)
            && (forall|j: int| i < j < tiles@.len() ==> !(#[trigger] tiles@[j])@.contains(n))
            implies (#[trigger] m@[n])@ == i + 1 by {
            assert(tv[i] == tiles@[i]@);
            assert forall|j: int| i < j < tv.len() implies !(#[trigger] tv[j]).contains(n) by {
                assert(tv[j] == tiles@[j]@);
                assert(!tiles@[j]@.contains(n));
            }
            assert(tiles_map(tv).contains_key(n));
            assert(color_numbers(m@).contains_key(n));
            assert(color_numbers(m@)[n] == m@[n]@);
        }
    }
    m
}

impl core::str::FromStr for GraphSource {
    type Err = String;

    /// Reads a graph source as `GraphSource::parse` does.
    fn from_str(s: &str) -> (r: Result<GraphSource, String>)
        ensures
            !s@.contains('=') ==> (r matches Err(m) && m@ == "expected format KIND=VALUE (e.g. file=path or triangle=5)"@),
            s@.contains('=') ==> exists|i: int| 0 <= i < s@.len() && s@[i] == '=' && !s@.take(i).contains('=') && ({
                let kind = s@.take(i).map_values(|c: char| ascii_lower(c));
                let val = s@.skip(i + 1);
                if kind == "file"@ || kind == "from-file"@ {
                    r matches Ok(GraphSource::FromFile(p)) && p@ == val
                } else if kind == "triangle"@ {
                    match spec_parse_usize(crate::cli::utf8_bytes(val)) {
                        Some(n) => r == Ok::<GraphSource, String>(GraphSource::Triangle(n)),
                        None => r matches Err(m) && m@ == "invalid triangle side length `"@ + val + "`"@,
                    }
                } else {
                    r matches Err(m) && m@ == "unknown input kind `"@ + kind + "` (expected `file` or `triangle`)"@
                }
            }),
    {
        GraphSource::parse(s)
    }
}

} // verus!
