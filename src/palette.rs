//! Pixel formats and palettes: ordered tables of colors addressed by index.
use vstd::prelude::*;
use vstd::seq_lib::lemma_flatten_concat;

use crate::error::EncodeError;

verus! {

/// Most colors a palette may hold: an index is a single byte.
pub const MAX_COLORS: usize = 256;

/// The channel layout of a pixel or a palette color.
#[derive(Debug, Clone, Copy, PartialEq, Eq, Structural)]
pub enum PixelFormat {
    RGB,
    RGBA,
}

/// Bytes per color for a format: three for RGB, four for RGBA.
pub open spec fn stride(f: PixelFormat) -> nat {
    match f {
        PixelFormat::RGB => 3,
        PixelFormat::RGBA => 4,
    }
}

impl PixelFormat {
    /// Bytes per color in this format.
    pub fn stride(&self) -> (r: usize)
        ensures
            r == stride(*self),
    {
        match self {
            PixelFormat::RGB => 3,
            PixelFormat::RGBA => 4,
        }
    }
}

/// A palette: colors of one format laid end to end, `stride(format)` bytes
/// each. A color's position in the table is its index.
#[derive(Debug, Clone, PartialEq)]
pub struct Palette {
    pub format: PixelFormat,
    pub colors: Vec<u8>,
}

/// What a palette holds, as mathematical values.
pub struct PaletteModel {
    pub format: PixelFormat,
    pub colors: Seq<u8>,
}

impl View for Palette {
    type V = PaletteModel;

    open spec fn view(&self) -> PaletteModel {
        PaletteModel { format: self.format, colors: self.colors@ }
    }
}

impl PaletteModel {
    /// The palette's colors as a table; trailing bytes short of a whole
    /// color belong to none.
    pub open spec fn table(self) -> Seq<Seq<u8>> {
        colors_of(self.colors, stride(self.format))
    }
}

/// The colors of a flat byte sequence taken `s` bytes at a time; bytes after
/// the last whole color belong to none.
pub open spec fn colors_of(bytes: Seq<u8>, s: nat) -> Seq<Seq<u8>> {
    Seq::new(bytes.len() / s, |i: int| bytes.subrange(i * s, i * s + s))
}

/// The distinct colors of `cs`, each once, in the order in which they first
/// appear.
pub open spec fn first_seen(cs: Seq<Seq<u8>>) -> Seq<Seq<u8>>
    decreases cs.len(),
{
    if cs.len() == 0 {
        Seq::empty()
    } else {
        let p = first_seen(cs.drop_last());
        if p.contains(cs.last()) {
            p
        } else {
            p.push(cs.last())
        }
    }
}

/// The index of color `c` in `table`: the position of its first occurrence.
pub open spec fn index_in(table: Seq<Seq<u8>>, c: Seq<u8>) -> int {
    table.index_of_first(c).unwrap()
}

/// Whether every entry of `table` is `s` bytes long.
pub open spec fn uniform(table: Seq<Seq<u8>>, s: nat) -> bool {
    forall|i: int| 0 <= i < table.len() ==> (#[trigger] table[i]).len() == s
}

pub proof fn lemma_entry_in_bounds(len: nat, s: nat, i: int)
    by (nonlinear_arith)
    requires
        s > 0,
        0 <= i < len / s,
    ensures
        0 <= i * s,
        i * s + s <= len,
{
}

/// A position that holds `c` and follows no other occurrence of it is the
/// index of `c`.
pub proof fn lemma_index_in(table: Seq<Seq<u8>>, c: Seq<u8>, i: int)
    requires
        0 <= i < table.len(),
        table[i] == c,
        forall|j: int| 0 <= j < i ==> table[j] != c,
    ensures
        index_in(table, c) == i,
        table[index_in(table, c)] == c,
{
    table.index_of_first_ensures(c);
    let k = table.index_of_first(c).unwrap();
    assert(table.contains(c));
    if k < i {
        assert(table[k] == c);
    } else if k > i {
        assert(table[i] != c);
    }
}

/// The index of a color that the table holds picks that color.
pub proof fn lemma_index_in_contains(table: Seq<Seq<u8>>, c: Seq<u8>)
    requires
        table.contains(c),
    ensures
        0 <= index_in(table, c) < table.len(),
        table[index_in(table, c)] == c,
{
    table.index_of_first_ensures(c);
}

/// What the first-seen palette of a color sequence is made of: each color of
/// the sequence once, and nothing else.
pub proof fn lemma_first_seen(cs: Seq<Seq<u8>>)
    ensures
        first_seen(cs).no_duplicates(),
        forall|k: int| 0 <= k < cs.len() ==> first_seen(cs).contains(#[trigger] cs[k]),
        forall|j: int| 0 <= j < first_seen(cs).len() ==> cs.contains(#[trigger] first_seen(cs)[j]),
        first_seen(cs).len() <= cs.len(),
    decreases cs.len(),
{
    if cs.len() > 0 {
        let prev = cs.drop_last();
        lemma_first_seen(prev);
        let p = first_seen(prev);
        assert forall|k: int| 0 <= k < cs.len() implies first_seen(cs).contains(#[trigger] cs[k]) by {
            if k < cs.len() - 1 {
                assert(prev[k] == cs[k]);
                let w = choose|w: int| 0 <= w < p.len() && p[w] == prev[k];
                assert(first_seen(cs)[w] == cs[k]);
            } else if !p.contains(cs.last()) {
                assert(first_seen(cs)[p.len() as int] == cs[k]);
            }
        }
        assert forall|j: int| 0 <= j < first_seen(cs).len() implies cs.contains(
            #[trigger] first_seen(cs)[j],
        ) by {
            if j < p.len() {
                assert(prev.contains(p[j]));
                let w = choose|w: int| 0 <= w < prev.len() && prev[w] == p[j];
                assert(cs[w] == p[j]);
            } else {
                assert(cs[cs.len() - 1] == first_seen(cs)[j]);
            }
        }
    }
}

/// The first-seen palette has as many entries as the sequence has distinct
/// colors.
pub proof fn lemma_first_seen_len(cs: Seq<Seq<u8>>)
    ensures
        first_seen(cs).len() == cs.to_set().len(),
{
    lemma_first_seen(cs);
    let p = first_seen(cs);
    assert(p.to_set() =~= cs.to_set()) by {
        assert forall|c: Seq<u8>| cs.to_set().contains(c) implies p.to_set().contains(c) by {
            let k = choose|k: int| 0 <= k < cs.len() && cs[k] == c;
            assert(p.contains(cs[k]));
        }
    }
    p.unique_seq_to_set();
}

/// Laying `s`-byte colors end to end and cutting the result every `s` bytes
/// gives the colors back.
pub proof fn lemma_colors_of_flatten(table: Seq<Seq<u8>>, s: nat)
    requires
        s > 0,
        uniform(table, s),
    ensures
        table.flatten().len() == table.len() * s,
        colors_of(table.flatten(), s) == table,
    decreases table.len(),
{
    if table.len() > 0 {
        let prev = table.drop_last();
        let x = table.last();
        lemma_colors_of_flatten(prev, s);
        assert(prev + seq![x] =~= table);
        lemma_flatten_concat(prev, seq![x]);
        seq![x].lemma_flatten_one_element();
        let b = prev.flatten();
        let n = prev.len();
        assert(table.flatten() =~= b + x);
        assert((n + 1) * s == n * s + s) by (nonlinear_arith);
        assert((b + x).len() / s == n + 1) by (nonlinear_arith)
            requires
                (b + x).len() == n * s + s,
                s > 0,
        ;
        assert forall|i: int| 0 <= i < n + 1 implies #[trigger] colors_of(b + x, s)[i] == table[i] by {
            lemma_entry_in_bounds((n + 1) * s, s, i);
            if i < n {
                lemma_entry_in_bounds(n * s, s, i);
                assert((b + x).subrange(i * s, i * s + s) =~= b.subrange(i * s, i * s + s));
                assert(colors_of(b, s)[i] == prev[i]);
            } else {
                assert(i * s == n * s);
                assert((b + x).subrange(i * s, i * s + s) =~= x);
            }
        }
        assert(colors_of(table.flatten(), s) =~= table);
    }
}

/// The index of each color of `cs` in `table`, one byte per color.
pub open spec fn indices_in(table: Seq<Seq<u8>>, cs: Seq<Seq<u8>>) -> Seq<u8> {
    Seq::new(cs.len(), |k: int| index_in(table, cs[k]) as u8)
}

/// Every color cut from a byte sequence is `s` bytes long.
pub proof fn lemma_colors_of_uniform(bytes: Seq<u8>, s: nat)
    requires
        s > 0,
    ensures
        uniform(colors_of(bytes, s), s),
{
    assert forall|i: int| 0 <= i < colors_of(bytes, s).len() implies (
    #[trigger] colors_of(bytes, s)[i]).len() == s by {
        lemma_entry_in_bounds(bytes.len(), s, i);
    }
}

/// The first-seen palette of `s`-byte colors holds `s`-byte colors.
pub proof fn lemma_first_seen_uniform(cs: Seq<Seq<u8>>, s: nat)
    requires
        uniform(cs, s),
    ensures
        uniform(first_seen(cs), s),
{
    lemma_first_seen(cs);
    assert forall|j: int| 0 <= j < first_seen(cs).len() implies (
    #[trigger] first_seen(cs)[j]).len() == s by {
        assert(cs.contains(first_seen(cs)[j]));
    }
}

/// A prefix of a color sequence has no more distinct colors than the whole.
pub proof fn lemma_first_seen_grows(cs: Seq<Seq<u8>>, i: int)
    requires
        0 <= i <= cs.len(),
    ensures
        first_seen(cs.take(i)).len() <= first_seen(cs).len(),
    decreases cs.len(),
{
    if i == cs.len() {
        assert(cs.take(i) =~= cs);
    } else {
        assert(cs.take(i) =~= cs.drop_last().take(i));
        lemma_first_seen_grows(cs.drop_last(), i);
    }
}

/// Appending a color to a table appends its bytes to the table's bytes.
pub proof fn lemma_flatten_push(t: Seq<Seq<u8>>, x: Seq<u8>)
    ensures
        t.push(x).flatten() == t.flatten() + x,
{
    lemma_flatten_concat(t, seq![x]);
    seq![x].lemma_flatten_one_element();
    assert(t + seq![x] =~= t.push(x));
}

/// Cutting a buffer of whole `s`-byte colors into colors and laying them end
/// to end gives the buffer back.
pub proof fn lemma_flatten_colors_of(b: Seq<u8>, s: nat)
    requires
        s > 0,
        b.len() % s == 0,
    ensures
        colors_of(b, s).flatten() == b,
    decreases b.len(),
{
    if b.len() == 0 {
        assert(colors_of(b, s).len() == 0) by (nonlinear_arith)
            requires
                b.len() == 0,
                s > 0,
        ;
        assert(b =~= Seq::<u8>::empty());
    } else {
        let n = b.len() / s;
        assert(b.len() == n * s && n >= 1 && (n - 1) * s == n * s - s) by (nonlinear_arith)
            requires
                b.len() % s == 0,
                b.len() > 0,
                s > 0,
                n == b.len() / s,
        ;
        let m = ((n - 1) * s) as nat;
        let prev = b.take(m as int);
        assert(m % s == 0 && m / s == (n - 1) as nat) by (nonlinear_arith)
            requires
                m == (n - 1) * s,
                n >= 1,
                s > 0,
        ;
        lemma_flatten_colors_of(prev, s);
        let x = b.subrange(m as int, (m + s) as int);
        assert(colors_of(b, s) =~= colors_of(prev, s).push(x)) by {
            assert forall|i: int| 0 <= i < n - 1 implies #[trigger] colors_of(b, s)[i]
                == colors_of(prev, s)[i] by {
                lemma_entry_in_bounds(m, s, i);
                assert(b.subrange(i * s, i * s + s) =~= prev.subrange(i * s, i * s + s));
            }
        }
        lemma_flatten_push(colors_of(prev, s), x);
        assert(prev + x =~= b);
    }
}

/// A position is a whole entry of the table exactly when the entry after it
/// still fits.
pub proof fn lemma_entry_fits(len: nat, s: nat, i: int)
    by (nonlinear_arith)
    requires
        s > 0,
        0 <= i,
    ensures
        i * s + s <= len <==> i < len / s,
        (i + 1) * s == i * s + s,
{
}

/// Whether the `s` bytes of `a` at `ai` equal the `s` bytes of `b` at `bi`.
fn same_color(a: &[u8], ai: usize, b: &[u8], bi: usize, s: usize) -> (r: bool)
    requires
        ai + s <= a@.len(),
        bi + s <= b@.len(),
    ensures
        r == (a@.subrange(ai as int, ai + s) == b@.subrange(bi as int, bi + s)),
{
    let mut k: usize = 0;
    while k < s
        invariant
            k <= s,
            ai + s <= a.len(),
            bi + s <= b.len(),
            a@.subrange(ai as int, ai + k) == b@.subrange(bi as int, bi + k),
        decreases s - k,
    {
        if a[ai + k] != b[bi + k] {
            assert(a@.subrange(ai as int, ai + s)[k as int] != b@.subrange(bi as int, bi + s)[k as int]);
            return false;
        }
        assert(a@.subrange(ai as int, ai + k + 1) =~= a@.subrange(ai as int, ai + k).push(a[ai + k]));
        assert(b@.subrange(bi as int, bi + k + 1) =~= b@.subrange(bi as int, bi + k).push(b[bi + k]));
        k = k + 1;
    }
    true
}

impl Palette {
    /// A copy of this palette.
    pub fn duplicate(&self) -> (r: Palette)
        ensures
            r@ == self@,
    {
        let colors = self.colors.clone();
        assert(colors@ =~= self.colors@);
        Palette { format: self.format, colors }
    }


    /// The palette of a pixel buffer: its distinct colors, `stride(format)`
    /// bytes each, in the order in which they first appear. Fails where there
    /// are more than 256 of them.
    pub fn build(pixels: &[u8], format: PixelFormat) -> (r: Result<Palette, EncodeError>)
        ensures
            ({
                let p = first_seen(colors_of(pixels@, stride(format)));
                match r {
                    Ok(pal) => p.len() <= MAX_COLORS && pal.format == format && pal.colors@
                        == p.flatten(),
                    Err(e) => p.len() > MAX_COLORS && e == EncodeError::TooManyColors,
                }
            }),
    {
        let s = format.stride();
        let ghost cs = colors_of(pixels@, s as nat);
        let n = pixels.len() / s;
        let mut pal = Palette { format, colors: Vec::new() };
        let mut count: usize = 0;
        let mut k: usize = 0;
        let mut at: usize = 0;
        proof {
            lemma_colors_of_uniform(pixels@, s as nat);
        }
        while k < n
            invariant
                s == stride(format),
                cs == colors_of(pixels@, s as nat),
                uniform(cs, s as nat),
                n == cs.len(),
                k <= n,
                at == k * s,
                pixels@.len() <= usize::MAX,
                pal.format == format,
                pal.colors@ == first_seen(cs.take(k as int)).flatten(),
                count == first_seen(cs.take(k as int)).len(),
                count <= MAX_COLORS,
            decreases n - k,
        {
            let ghost seen = first_seen(cs.take(k as int));
            proof {
                lemma_entry_fits(pixels@.len(), s as nat, k as int);
                lemma_first_seen_uniform(cs.take(k as int), s as nat);
                lemma_colors_of_flatten(seen, s as nat);
                assert(cs.take(k + 1).drop_last() =~= cs.take(k as int));
                assert(cs.take(k + 1).last() == cs[k as int]);
            }
            if pal.index_of(pixels, at, s).is_none() {
                if count == MAX_COLORS {
                    proof {
                        lemma_first_seen_grows(cs, k + 1);
                    }
                    return Err(EncodeError::TooManyColors);
                }
                let mut b: usize = 0;
                while b < s
                    invariant
                        b <= s,
                        at + s <= pixels@.len(),
                        pixels@.len() <= usize::MAX,
                        pal.format == format,
                        pal.colors@ == seen.flatten() + pixels@.subrange(at as int, at + b),
                    decreases s - b,
                {
                    pal.colors.push(pixels[at + b]);
                    assert(pixels@.subrange(at as int, at + b + 1) =~= pixels@.subrange(at as int, at + b).push(pixels@[at + b]));
                    b = b + 1;
                }
                proof {
                    lemma_flatten_push(seen, cs[k as int]);
                }
                count = count + 1;
            }
            k = k + 1;
            at = at + s;
        }
        proof {
            assert(cs.take(n as int) =~= cs);
        }
        Ok(pal)
    }

    /// The palette index of each `s`-byte pixel of `pixels`, or `None` where
    /// the palette lacks a pixel's color.
    pub fn index_pixels(&self, pixels: &[u8], s: usize) -> (r: Option<Vec<u8>>)
        requires
            s > 0,
            self@.table().len() <= MAX_COLORS,
        ensures
            ({
                let cs = colors_of(pixels@, s as nat);
                let t = self@.table();
                match r {
                    Some(idx) => (forall|k: int| 0 <= k < cs.len() ==> t.contains(#[trigger] cs[k]))
                        && idx@ == indices_in(t, cs),
                    None => exists|k: int| 0 <= k < cs.len() && !t.contains(#[trigger] cs[k]),
                }
            }),
    {
        let ghost cs = colors_of(pixels@, s as nat);
        let ghost t = self@.table();
        let n = pixels.len() / s;
        let mut idx: Vec<u8> = Vec::new();
        let mut k: usize = 0;
        let mut at: usize = 0;
        while k < n
            invariant
                s > 0,
                cs == colors_of(pixels@, s as nat),
                t == self@.table(),
                t.len() <= MAX_COLORS,
                n == cs.len(),
                k <= n,
                at == k * s,
                pixels@.len() <= usize::MAX,
                forall|j: int| 0 <= j < k ==> t.contains(#[trigger] cs[j]),
                idx@ == indices_in(t, cs.take(k as int)),
            decreases n - k,
        {
            proof {
                lemma_entry_fits(pixels@.len(), s as nat, k as int);
            }
            match self.index_of(pixels, at, s) {
                Some(i) => {
                    proof {
                        lemma_index_in_contains(t, cs[k as int]);
                    }
                    idx.push(i as u8);
                    assert(idx@ =~= indices_in(t, cs.take(k + 1)));
                },
                None => {
                    assert(cs[k as int] == pixels@.subrange(at as int, at + s));
                    return None;
                },
            }
            k = k + 1;
            at = at + s;
        }
        assert(cs.take(n as int) =~= cs);
        Some(idx)
    }
    /// The index of the `s`-byte color at `at` in `pixels`: the position of
    /// its first occurrence in the palette, or `None` where the palette does
    /// not hold it.
    ///
    /// Lookups scan the palette rather than go through a hash map: a palette
    /// holds at most 256 colors, the scan yields the first occurrence that
    /// the contract names, and it needs no key built from the color's bytes.
    pub fn index_of(&self, pixels: &[u8], at: usize, s: usize) -> (r: Option<usize>)
        requires
            at + s <= pixels@.len(),
        ensures
            ({
                let c = pixels@.subrange(at as int, at + s);
                match r {
                    Some(i) => self@.table().contains(c) && i == index_in(self@.table(), c),
                    None => !self@.table().contains(c),
                }
            }),
    {
        let ghost c = pixels@.subrange(at as int, at + s);
        let ghost t = self@.table();
        let ts = self.format.stride();
        if ts != s {
            assert forall|j: int| 0 <= j < t.len() implies t[j] != c by {
                lemma_entry_in_bounds(self.colors@.len(), ts as nat, j);
                assert(t[j].len() == ts);
            }
            return None;
        }
        let mut i: usize = 0;
        let mut base: usize = 0;
        while ts <= self.colors.len() - base
            invariant
                ts == s,
                ts == stride(self.format),
                at + s <= pixels@.len(),
                c == pixels@.subrange(at as int, at + s),
                t == self@.table(),
                base == i * ts,
                base <= self.colors@.len(),
                i <= t.len(),
                forall|j: int| 0 <= j < i ==> t[j] != c,
            decreases self.colors@.len() - base,
        {
            proof {
                lemma_entry_fits(self.colors@.len(), ts as nat, i as int);
            }
            if same_color(&self.colors, base, pixels, at, s) {
                proof {
                    lemma_index_in(t, c, i as int);
                }
                return Some(i);
            }
            i = i + 1;
            base = base + ts;
        }
        proof {
            lemma_entry_fits(self.colors@.len(), ts as nat, i as int);
            assert(!t.contains(c));
        }
        None
    }
}

} // verus!
