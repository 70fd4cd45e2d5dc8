use vstd::prelude::*;

use crate::carve::Image;
use crate::color::{channels_in_range, pixels_in_range, Color, CHANNEL_ONE, MAX_CHANNEL};
use crate::matrix::{Grid, Matrix};

verus! {

/// Why a text image could not be read.
#[derive(Clone, Copy, Debug, PartialEq, Eq, Structural)]
pub enum DecodeError {
    /// The first line is not `P3`, or the maximum channel value is zero.
    FormatError,
    /// A token where a number is expected is not an unsigned integer in range:
    /// a `usize` for the header, a `u32` for a channel.
    ParseError,
    /// The input ended before the header and every pixel were read.
    ExhaustionError,
}

impl DecodeError {
    /// A human-readable description of the error.
    pub fn message(&self) -> &'static str {
        match self {
            DecodeError::FormatError => "image is not of type P3",
            DecodeError::ParseError => "expected an unsigned integer",
            DecodeError::ExhaustionError => "image doesn't contain enough pixel data",
        }
    }
}

pub open spec fn is_space(b: u8) -> bool {
    b == 32 || b == 9 || b == 10 || b == 13
}

pub open spec fn is_digit(b: u8) -> bool {
    48 <= b <= 57
}

/// The end of the run of non-space bytes that starts at `i`.
pub open spec fn token_end(s: Seq<u8>, i: int) -> int
    decreases s.len() - i,
{
    if 0 <= i < s.len() && !is_space(s[i]) {
        token_end(s, i + 1)
    } else {
        i
    }
}

pub proof fn lemma_token_end(s: Seq<u8>, i: int)
    requires
        0 <= i <= s.len(),
    ensures
        i <= token_end(s, i) <= s.len(),
        forall|k: int| i <= k < token_end(s, i) ==> !is_space(#[trigger] s[k]),
        token_end(s, i) < s.len() ==> is_space(s[token_end(s, i)]),
    decreases s.len() - i,
{
    if i < s.len() && !is_space(s[i]) {
        lemma_token_end(s, i + 1);
    }
}

/// The whitespace-separated tokens of `s` from position `i` on.
pub open spec fn tokens_from(s: Seq<u8>, i: int) -> Seq<Seq<u8>>
    decreases s.len() - i,
{
    if i < 0 || i >= s.len() {
        Seq::empty()
    } else if is_space(s[i]) {
        tokens_from(s, i + 1)
    } else {
        proof {
            lemma_token_end(s, i + 1);
        }
        seq![s.subrange(i, token_end(s, i))] + tokens_from(s, token_end(s, i))
    }
}

/// The value of a run of decimal digits.
pub open spec fn digits_value(t: Seq<u8>) -> nat
    decreases t.len(),
{
    if t.len() == 0 {
        0
    } else {
        digits_value(t.drop_last()) * 10 + (t.last() - 48) as nat
    }
}

/// The number that token `t` spells, if it is all digits and at most `limit`.
pub open spec fn bounded_number(t: Seq<u8>, limit: nat) -> Option<nat> {
    if t.len() > 0 && (forall|k: int| 0 <= k < t.len() ==> is_digit(#[trigger] t[k]))
        && digits_value(t) <= limit {
        Some(digits_value(t))
    } else {
        None
    }
}

/// `num / den` rounded half up.
pub open spec fn round_div_spec(num: nat, den: nat) -> nat {
    ((2 * num + den) / (2 * den)) as nat
}

/// The fixed-point channel for the value `v` of a file whose maximum is `max`.
pub open spec fn scale_channel(v: nat, max: nat) -> nat {
    round_div_spec(v * (CHANNEL_ONE as nat), max)
}

/// The channel that token `t` gives in a file whose maximum is `max`.
/// Channel values are unsigned 32-bit integers.
pub open spec fn channel_of(t: Seq<u8>, max: nat) -> Result<u64, DecodeError> {
    match bounded_number(t, u32::MAX as nat) {
        None => Err(DecodeError::ParseError),
        Some(v) => Ok(scale_channel(v, max) as u64),
    }
}

/// The first `count` channels read from the tokens `toks`.
pub open spec fn read_channels(toks: Seq<Seq<u8>>, count: nat, max: nat) -> Result<
    Seq<u64>,
    DecodeError,
>
    decreases count,
{
    if count == 0 {
        Ok(Seq::empty())
    } else if toks.len() == 0 {
        Err(DecodeError::ExhaustionError)
    } else {
        match channel_of(toks[0], max) {
            Err(e) => Err(e),
            Ok(c) => match read_channels(toks.drop_first(), (count - 1) as nat, max) {
                Err(e) => Err(e),
                Ok(rest) => Ok(seq![c] + rest),
            },
        }
    }
}

/// Header token `k`, as a number; header numbers range over `usize`.
pub open spec fn header_field(toks: Seq<Seq<u8>>, k: int) -> Result<usize, DecodeError> {
    if k >= toks.len() {
        Err(DecodeError::ExhaustionError)
    } else {
        match bounded_number(toks[k], usize::MAX as nat) {
            None => Err(DecodeError::ParseError),
            Some(v) => Ok(v as usize),
        }
    }
}

/// The input's first line is exactly `P3`.
pub open spec fn has_magic(s: Seq<u8>) -> bool {
    s.len() >= 2 && s[0] == 80 && s[1] == 51 && (s.len() == 2 || s[2] == 10)
}

/// The pixels spelled by consecutive channel triples.
pub open spec fn pixels_of(ch: Seq<u64>, n: nat) -> Seq<Color> {
    Seq::new(n, |i: int| Color { r: ch[3 * i], g: ch[3 * i + 1], b: ch[3 * i + 2] })
}

/// The `w` by `h` image whose channels `r` holds, when it is a success.
pub open spec fn image_of(w: usize, h: usize, r: Result<Seq<u64>, DecodeError>) -> Result<
    Grid<Color>,
    DecodeError,
> {
    match r {
        Err(e) => Err(e),
        Ok(ch) => Ok(Grid { width: w as nat, height: h as nat, cells: pixels_of(ch, (w * h) as nat) }),
    }
}

/// What reading the text image `s` gives: a header of `P3`, width, height and
/// maximum channel value, then one channel triple per pixel in row-major order.
pub open spec fn decode_spec(s: Seq<u8>) -> Result<Grid<Color>, DecodeError> {
    if !has_magic(s) {
        Err(DecodeError::FormatError)
    } else {
        let toks = tokens_from(s, 2);
        match header_field(toks, 0) {
            Err(e) => Err(e),
            Ok(w) => match header_field(toks, 1) {
                Err(e) => Err(e),
                Ok(h) => match header_field(toks, 2) {
                    Err(e) => Err(e),
                    Ok(m) => if m == 0 {
                        Err(DecodeError::FormatError)
                    } else {
                        image_of(
                            w,
                            h,
                            read_channels(
                                toks.subrange(3, toks.len() as int),
                                (3 * w * h) as nat,
                                m as nat,
                            ),
                        )
                    },
                },
            },
        }
    }
}

/// The next token from position `i`: its start and end, or `(s.len(), s.len())`
/// when only spaces remain.
pub fn next_token(s: &Vec<u8>, i: usize) -> (r: (usize, usize))
    requires
        i <= s@.len(),
    ensures
        r.0 <= r.1 <= s@.len(),
        r.0 == s@.len() ==> tokens_from(s@, i as int) == Seq::<Seq<u8>>::empty(),
        r.0 < s@.len() ==> r.0 < r.1 && tokens_from(s@, i as int) == seq![
            s@.subrange(r.0 as int, r.1 as int),
        ] + tokens_from(s@, r.1 as int),
{
    let n = s.len();
    let mut a: usize = i;
    while a < n && (s[a] == 32 || s[a] == 9 || s[a] == 10 || s[a] == 13)
        invariant
            n == s@.len(),
            i <= a <= n,
            tokens_from(s@, i as int) == tokens_from(s@, a as int),
        decreases n - a,
    {
        a = a + 1;
    }
    if a == n {
        return (n, n);
    }
    let mut b: usize = a + 1;
    while b < n && !(s[b] == 32 || s[b] == 9 || s[b] == 10 || s[b] == 13)
        invariant
            n == s@.len(),
            a < b <= n,
            token_end(s@, a as int) == token_end(s@, b as int),
        decreases n - b,
    {
        b = b + 1;
    }
    (a, b)
}

/// The number that bytes `a..b` of `s` spell, if it is at most `limit`.
pub fn parse_number(s: &Vec<u8>, a: usize, b: usize, limit: u64) -> (r: Option<u64>)
    requires
        a <= b <= s@.len(),
    ensures
        r is None <==> bounded_number(s@.subrange(a as int, b as int), limit as nat) is None,
        r matches Some(v) ==> bounded_number(s@.subrange(a as int, b as int), limit as nat)
            == Some(v as nat),
{
    let ghost t = s@.subrange(a as int, b as int);
    if a == b {
        return None;
    }
    let mut value: u128 = 0;
    let mut big = false;
    let mut k: usize = a;
    while k < b
        invariant
            a <= k <= b <= s@.len(),
            t == s@.subrange(a as int, b as int),
            forall|j: int| 0 <= j < k - a ==> is_digit(#[trigger] t[j]),
            big ==> digits_value(t.subrange(0, k - a)) > limit,
            !big ==> value == digits_value(t.subrange(0, k - a)) && value <= limit,
        decreases b - k,
    {
        let c = s[k];
        if c < 48 || c > 57 {
            assert(!is_digit(t[k - a]));
            return None;
        }
        let ghost p = t.subrange(0, k - a);
        let ghost q = t.subrange(0, k + 1 - a);
        assert(q.drop_last() =~= p);
        assert(digits_value(q) == digits_value(p) * 10 + (c - 48) as nat);
        if !big {
            value = value * 10 + (c - 48) as u128;
            if value > limit as u128 {
                big = true;
            }
        }
        k = k + 1;
    }
    assert(t.subrange(0, b - a) =~= t);
    if big {
        None
    } else {
        Some(value as u64)
    }
}

/// `num / den` rounded half up.
pub fn round_div(num: u128, den: u128) -> (r: u128)
    requires
        den > 0,
        2 * num + 2 * den <= u128::MAX,
    ensures
        r == round_div_spec(num as nat, den as nat),
{
    (2 * num + den) / (2 * den)
}

/// Reads the channel token at bytes `a..b` of `s`.
fn read_channel(s: &Vec<u8>, a: usize, b: usize, max: usize) -> (r: Result<u64, DecodeError>)
    requires
        a <= b <= s@.len(),
        max > 0,
    ensures
        r == channel_of(s@.subrange(a as int, b as int), max as nat),
        r matches Ok(c) ==> c <= MAX_CHANNEL,
{
    match parse_number(s, a, b, 0xffff_ffff) {
        None => Err(DecodeError::ParseError),
        Some(v) => {
            let n = v as u128 * CHANNEL_ONE as u128;
            assert(n <= 0xffff_ffff * 65535) by (nonlinear_arith)
                requires
                    n == v * 65535,
                    v <= 0xffff_ffff,
            ;
            let c = round_div(n, max as u128);
            assert(c <= n + 1) by (nonlinear_arith)
                requires
                    c == (2 * n + max) / (2 * max),
                    max >= 1,
            ;
            Ok(c as u64)
        },
    }
}

/// Reads one header number from position `i`: the number and the position after it.
fn read_header_field(s: &Vec<u8>, i: usize) -> (r: Result<(usize, usize), DecodeError>)
    requires
        i <= s@.len(),
    ensures
        r matches Ok((v, j)) ==> header_field(tokens_from(s@, i as int), 0) == Ok::<
            usize,
            DecodeError,
        >(v) && j <= s@.len() && tokens_from(s@, j as int) == tokens_from(s@, i as int).drop_first(),
        r matches Err(e) ==> header_field(tokens_from(s@, i as int), 0) == Err::<usize, DecodeError>(
            e,
        ),
{
    let (a, b) = next_token(s, i);
    if a == s.len() {
        return Err(DecodeError::ExhaustionError);
    }
    match parse_number(s, a, b, usize::MAX as u64) {
        None => Err(DecodeError::ParseError),
        Some(v) => {
            assert(tokens_from(s@, i as int).drop_first() =~= tokens_from(s@, b as int));
            Ok((v as usize, b))
        },
    }
}

/// `r` with the channels `p` put in front when it is a success.
pub open spec fn prepend(p: Seq<u64>, r: Result<Seq<u64>, DecodeError>) -> Result<
    Seq<u64>,
    DecodeError,
> {
    match r {
        Ok(rest) => Ok(p + rest),
        Err(e) => Err(e),
    }
}

/// Reads a text image: `P3`, then width, height and maximum channel value, then
/// one `r g b` triple per pixel in row-major order. Each channel value `v`
/// becomes `v * CHANNEL_ONE / max`, rounded half up. Tokens after the last
/// pixel are ignored.
pub fn decode_ppm(s: &Vec<u8>) -> (r: Result<Image, DecodeError>)
    ensures
        r matches Ok(m) ==> decode_spec(s@) == Ok::<Grid<Color>, DecodeError>(m@),
        r matches Ok(m) ==> m@.wf() && pixels_in_range(m@),
        r matches Err(e) ==> decode_spec(s@) == Err::<Grid<Color>, DecodeError>(e),
{
    let n = s.len();
    if !(n >= 2 && s[0] == 80 && s[1] == 51 && (n == 2 || s[2] == 10)) {
        return Err(DecodeError::FormatError);
    }
    let ghost toks = tokens_from(s@, 2);
    let (w, p1) = match read_header_field(s, 2) {
        Err(e) => {
            return Err(e);
        },
        Ok(v) => v,
    };
    let (h, p2) = match read_header_field(s, p1) {
        Err(e) => {
            return Err(e);
        },
        Ok(v) => v,
    };
    assert(header_field(toks, 1) == header_field(toks.drop_first(), 0));
    let (max, p3) = match read_header_field(s, p2) {
        Err(e) => {
            return Err(e);
        },
        Ok(v) => v,
    };
    assert(header_field(toks, 2) == header_field(toks.drop_first().drop_first(), 0));
    if max == 0 {
        return Err(DecodeError::FormatError);
    }
    let ghost rest0 = toks.subrange(3, toks.len() as int);
    assert(tokens_from(s@, p3 as int) =~= rest0);
    let ghost wh: nat = (w * h) as nat;
    let ghost count: nat = (3 * w * h) as nat;
    assert(w as u128 * h as u128 <= 0xffff_ffff_ffff_ffffu128 * 0xffff_ffff_ffff_ffffu128
        && count == 3 * wh) by (nonlinear_arith)
        requires
            w <= 0xffff_ffff_ffff_ffff,
            h <= 0xffff_ffff_ffff_ffff,
            wh == w * h,
            count == 3 * w * h,
    ;
    let area: u128 = w as u128 * h as u128;
    // Past `u128::MAX` the input runs out of tokens long before the count is reached.
    let cap: u128 = if area <= u128::MAX / 3 {
        3 * area
    } else {
        u128::MAX
    };
    assert(decode_spec(s@) == image_of(w, h, read_channels(rest0, count, max as nat)));
    let mut chs: Vec<u64> = Vec::new();
    let mut pos: usize = p3;
    let mut done: u128 = 0;
    while done < cap
        invariant
            n == s@.len(),
            pos <= n,
            max > 0,
            done <= cap <= count,
            cap < count ==> cap == u128::MAX,
            chs@.len() == done,
            forall|k: int| 0 <= k < done ==> #[trigger] chs@[k] <= MAX_CHANNEL,
            count == 3 * wh,
            wh == w * h,
            decode_spec(s@) == image_of(w, h, read_channels(rest0, count as nat, max as nat)),
            read_channels(rest0, count as nat, max as nat) == prepend(
                chs@,
                read_channels(tokens_from(s@, pos as int), (count - done) as nat, max as nat),
            ),
        decreases cap - done,
    {
        let ghost cur = tokens_from(s@, pos as int);
        let (a, b) = next_token(s, pos);
        if a == n {
            return Err(DecodeError::ExhaustionError);
        }
        assert(cur[0] == s@.subrange(a as int, b as int));
        assert(cur.drop_first() =~= tokens_from(s@, b as int));
        match read_channel(s, a, b, max) {
            Err(e) => {
                return Err(e);
            },
            Ok(c) => {
                let ghost old_chs = chs@;
                chs.push(c);
                proof {
                    let tail = read_channels(
                        tokens_from(s@, b as int),
                        (count - done - 1) as nat,
                        max as nat,
                    );
                    match tail {
                        Ok(t) => {
                            assert(old_chs + (seq![c] + t) =~= chs@ + t);
                        },
                        Err(_) => {},
                    }
                }
                pos = b;
                done = done + 1;
            },
        }
    }
    let len = chs.len();
    assert(done == count) by {
        assert(len <= usize::MAX);
        assert(usize::MAX < u128::MAX);
    }
    assert(chs@ + Seq::<u64>::empty() =~= chs@);
    let npix = len / 3;
    let mut pixels: Vec<Color> = Vec::new();
    let mut i: usize = 0;
    while i < npix
        invariant
            len == chs@.len(),
            npix == len / 3,
            i <= npix,
            pixels@.len() == i,
            forall|k: int| 0 <= k < len ==> #[trigger] chs@[k] <= MAX_CHANNEL,
            forall|k: int| 0 <= k < i ==> #[trigger] pixels@[k] == pixels_of(chs@, npix as nat)[k],
            forall|k: int| 0 <= k < i ==> channels_in_range(#[trigger] pixels@[k]),
        decreases npix - i,
    {
        pixels.push(Color { r: chs[3 * i], g: chs[3 * i + 1], b: chs[3 * i + 2] });
        i = i + 1;
    }
    assert(npix == wh);
    assert(pixels@ =~= pixels_of(chs@, (w * h) as nat));
    let m = Matrix::from_cells(w as usize, h as usize, pixels);
    assert forall|x: int, y: int| m@.in_bounds(x, y) implies channels_in_range(
        #[trigger] m@.at(x, y),
    ) by {
        crate::matrix::lemma_index_in_range(w as int, h as int, x, y);
    }
    Ok(m)
}

/// The decimal digits of `n`, most significant first.
pub open spec fn decimal(n: nat) -> Seq<u8>
    decreases n,
{
    if n < 10 {
        seq![(48 + n) as u8]
    } else {
        decimal(n / 10).push((48 + n % 10) as u8)
    }
}

/// The 8-bit value written for a channel: `c * 255 / CHANNEL_ONE`, rounded half up.
pub open spec fn encode_channel(c: u64) -> nat {
    round_div_spec((c * 255) as nat, CHANNEL_ONE as nat)
}

/// The line written for one pixel: its three 8-bit values and a newline.
pub open spec fn pixel_line(c: Color) -> Seq<u8> {
    decimal(encode_channel(c.r)) + seq![32u8] + decimal(encode_channel(c.g)) + seq![32u8]
        + decimal(encode_channel(c.b)) + seq![10u8]
}

/// The lines of the pixels `cells`, in order.
pub open spec fn pixels_text(cells: Seq<Color>) -> Seq<u8>
    decreases cells.len(),
{
    if cells.len() == 0 {
        Seq::empty()
    } else {
        pixels_text(cells.drop_last()) + pixel_line(cells.last())
    }
}

/// The text image written for `img`: `P3`, width and height, `255`, then one
/// line per pixel in row-major order.
pub open spec fn encode_spec(img: Grid<Color>) -> Seq<u8> {
    seq![80u8, 51u8, 10u8] + decimal(img.width) + seq![32u8] + decimal(img.height) + seq![
        10u8,
        50u8,
        53u8,
        53u8,
        10u8,
    ] + pixels_text(img.cells)
}

/// A channel value `v` of a file whose maximum is 255 is read as `257 * v` and
/// written back as `v`: decoding then encoding keeps every such value.
pub proof fn lemma_channel_round_trip(v: nat)
    requires
        v <= 255,
    ensures
        scale_channel(v, 255) == 257 * v,
        scale_channel(v, 255) <= MAX_CHANNEL,
        encode_channel((257 * v) as u64) == v,
{
    assert(2 * (v * 65535) + 255 == 510 * (257 * v) + 255) by (nonlinear_arith);
    assert((510 * (257 * v) + 255) / 510 == 257 * v) by (nonlinear_arith);
    assert(2 * ((257 * v) * 255) + 65535 == 131070 * v + 65535) by (nonlinear_arith);
    assert((131070 * v + 65535) / 131070 == v) by (nonlinear_arith);
}

/// Appends the decimal digits of `n` to `out`.
pub fn push_decimal(out: &mut Vec<u8>, n: u128)
    ensures
        final(out)@ == old(out)@ + decimal(n as nat),
{
    let mut rev: Vec<u8> = Vec::new();
    let mut q: u128 = n;
    let ghost mut suffix: Seq<u8> = Seq::empty();
    while q >= 10
        invariant
            decimal(n as nat) == decimal(q as nat) + suffix,
            suffix.len() == rev@.len(),
            forall|k: int| 0 <= k < rev@.len() ==> #[trigger] rev@[k] == suffix[suffix.len() - 1 - k],
        decreases q,
    {
        let d = (48 + q % 10) as u8;
        proof {
            assert(decimal(q as nat) == decimal((q / 10) as nat).push(d));
            assert(decimal((q / 10) as nat).push(d) + suffix =~= decimal((q / 10) as nat) + (seq![d]
                + suffix));
            suffix = seq![d] + suffix;
        }
        rev.push(d);
        q = q / 10;
    }
    let first = (48 + q) as u8;
    out.push(first);
    let ghost start = old(out)@.push(first);
    let mut k: usize = rev.len();
    while k > 0
        invariant
            k <= rev@.len(),
            suffix.len() == rev@.len(),
            forall|j: int| 0 <= j < rev@.len() ==> #[trigger] rev@[j] == suffix[suffix.len() - 1 - j],
            out@ == start + suffix.subrange(0, rev@.len() - k),
        decreases k,
    {
        k = k - 1;
        out.push(rev[k]);
        assert(out@ =~= start + suffix.subrange(0, rev@.len() - k));
    }
    assert(suffix.subrange(0, suffix.len() as int) =~= suffix);
    assert(decimal(q as nat) == seq![first]);
    assert(out@ =~= old(out)@ + decimal(n as nat));
}

/// The 8-bit value written for channel `c`.
pub fn to_8bit(c: u64) -> (r: u64)
    ensures
        r == encode_channel(c),
{
    let n = c as u128 * 255;
    let r = round_div(n, CHANNEL_ONE as u128);
    assert(r <= 0xffff_ffff_ffff_ffff) by (nonlinear_arith)
        requires
            r as int == (2 * n + 65535) / 131070int,
            n == c * 255,
            c <= 0xffff_ffff_ffff_ffff,
    ;
    r as u64
}

impl Matrix<Color> {
    /// The text image for this image: `P3`, width and height, `255`, then each
    /// pixel's channels scaled to 0..=255 and rounded half up, one pixel per line.
    pub fn encode_ppm(&self) -> (r: Vec<u8>)
        requires
            self@.wf(),
        ensures
            r@ == encode_spec(self@),
    {
        let mut out: Vec<u8> = Vec::new();
        out.push(80);
        out.push(51);
        out.push(10);
        push_decimal(&mut out, self.width() as u128);
        out.push(32);
        push_decimal(&mut out, self.height() as u128);
        out.push(10);
        out.push(50);
        out.push(53);
        out.push(53);
        out.push(10);
        let ghost head = out@;
        let cells = self.cells();
        let n = cells.len();
        let mut i: usize = 0;
        while i < n
            invariant
                n == cells@.len(),
                i <= n,
                out@ == head + pixels_text(cells@.subrange(0, i as int)),
            decreases n - i,
        {
            let c = cells[i];
            let ghost before = out@;
            let e = c.map(|v: u64| -> (r: u64)
                ensures
                    r == encode_channel(v),
                { to_8bit(v) });
            push_decimal(&mut out, e.r as u128);
            out.push(32);
            push_decimal(&mut out, e.g as u128);
            out.push(32);
            push_decimal(&mut out, e.b as u128);
            out.push(10);
            proof {
                let p = cells@.subrange(0, i + 1);
                assert(p.drop_last() =~= cells@.subrange(0, i as int));
                assert(p.last() == c);
                assert(out@ =~= before + pixel_line(c));
            }
            i = i + 1;
        }
        assert(cells@.subrange(0, n as int) =~= cells@);
        assert(out@ =~= encode_spec(self@));
        out
    }
}

pub proof fn lemma_token_end_shift(x: Seq<u8>, y: Seq<u8>, j: int)
    requires
        0 <= j <= y.len(),
    ensures
        token_end(x + y, x.len() + j) == x.len() + token_end(y, j),
    decreases y.len() - j,
{
    if j < y.len() {
        assert((x + y)[x.len() + j] == y[j]);
        lemma_token_end_shift(x, y, j + 1);
    }
}

pub proof fn lemma_tokens_shift(x: Seq<u8>, y: Seq<u8>, j: int)
    requires
        0 <= j <= y.len(),
    ensures
        tokens_from(x + y, x.len() + j) == tokens_from(y, j),
    decreases y.len() - j,
{
    if j < y.len() {
        assert((x + y)[x.len() + j] == y[j]);
        if is_space(y[j]) {
            lemma_tokens_shift(x, y, j + 1);
        } else {
            lemma_token_end(y, j);
            lemma_token_end(y, j + 1);
            lemma_token_end_shift(x, y, j);
            let te = token_end(y, j);
            assert((x + y).subrange(x.len() + j, x.len() + te) =~= y.subrange(j, te));
            lemma_tokens_shift(x, y, te);
        }
    }
}

pub proof fn lemma_token_end_within(x: Seq<u8>, y: Seq<u8>, i: int)
    requires
        0 <= i < x.len(),
        is_space(x.last()),
    ensures
        token_end(x + y, i) == token_end(x, i),
    decreases x.len() - i,
{
    assert((x + y)[i] == x[i]);
    if !is_space(x[i]) {
        lemma_token_end_within(x, y, i + 1);
    }
}

/// Tokens of a text whose first part ends in a space are the tokens of the
/// first part followed by those of the second.
pub proof fn lemma_tokens_concat(x: Seq<u8>, y: Seq<u8>, i: int)
    requires
        0 <= i <= x.len(),
        x.len() > 0 ==> is_space(x.last()),
    ensures
        tokens_from(x + y, i) == tokens_from(x, i) + tokens_from(y, 0),
    decreases x.len() - i,
{
    if i == x.len() {
        lemma_tokens_shift(x, y, 0);
        assert(tokens_from(x, i) + tokens_from(y, 0) =~= tokens_from(y, 0));
    } else {
        assert((x + y)[i] == x[i]);
        if is_space(x[i]) {
            lemma_tokens_concat(x, y, i + 1);
        } else {
            lemma_token_end(x, i);
            lemma_token_end(x, i + 1);
            lemma_token_end_within(x, y, i);
            let te = token_end(x, i);
            assert(te < x.len());
            assert((x + y).subrange(i, te) =~= x.subrange(i, te));
            lemma_tokens_concat(x, y, te);
            assert(seq![x.subrange(i, te)] + (tokens_from(x, te) + tokens_from(y, 0)) =~= (seq![
                x.subrange(i, te),
            ] + tokens_from(x, te)) + tokens_from(y, 0));
        }
    }
}

pub proof fn lemma_decimal(n: nat)
    ensures
        decimal(n).len() >= 1,
        forall|k: int| 0 <= k < decimal(n).len() ==> is_digit(#[trigger] decimal(n)[k]),
        digits_value(decimal(n)) == n,
    decreases n,
{
    let d = decimal(n);
    if n >= 10 {
        lemma_decimal(n / 10);
        assert(d.drop_last() =~= decimal(n / 10));
        assert(d.last() == (48 + n % 10) as u8);
        assert(digits_value(d) == digits_value(decimal(n / 10)) * 10 + (d.last() - 48) as nat);
    } else {
        assert(d.drop_last() =~= Seq::<u8>::empty());
        assert(digits_value(d.drop_last()) == 0);
    }
}

/// The decimal digits of `n` followed by a space form the single token `decimal(n)`.
pub proof fn lemma_decimal_token(n: nat, b: u8)
    requires
        is_space(b),
    ensures
        tokens_from(decimal(n) + seq![b], 0) == seq![decimal(n)],
{
    let d = decimal(n);
    let s = d + seq![b];
    lemma_decimal(n);
    lemma_digit_run_end(s, 0, d.len() as int);
    assert(s.subrange(0, d.len() as int) =~= d);
    assert(tokens_from(s, d.len() as int) == tokens_from(s, d.len() + 1 as int));
    assert(seq![d] + Seq::<Seq<u8>>::empty() =~= seq![d]);
}

pub proof fn lemma_digit_run_end(s: Seq<u8>, i: int, k: int)
    requires
        0 <= i <= k < s.len(),
        forall|j: int| i <= j < k ==> !is_space(#[trigger] s[j]),
        is_space(s[k]),
    ensures
        token_end(s, i) == k,
    decreases k - i,
{
    if i < k {
        lemma_digit_run_end(s, i + 1, k);
    }
}

/// The channel tokens written for the pixels `cells`, in order.
pub open spec fn channel_tokens(cells: Seq<Color>) -> Seq<Seq<u8>>
    decreases cells.len(),
{
    if cells.len() == 0 {
        Seq::empty()
    } else {
        let c = cells.last();
        channel_tokens(cells.drop_last()) + seq![
            decimal(encode_channel(c.r)),
            decimal(encode_channel(c.g)),
            decimal(encode_channel(c.b)),
        ]
    }
}

/// The channels of the pixels `cells`, three per pixel, in order.
pub open spec fn flat_channels(cells: Seq<Color>) -> Seq<u64>
    decreases cells.len(),
{
    if cells.len() == 0 {
        Seq::empty()
    } else {
        let c = cells.last();
        flat_channels(cells.drop_last()) + seq![c.r, c.g, c.b]
    }
}

pub proof fn lemma_pixel_line_tokens(c: Color)
    ensures
        tokens_from(pixel_line(c), 0) == seq![
            decimal(encode_channel(c.r)),
            decimal(encode_channel(c.g)),
            decimal(encode_channel(c.b)),
        ],
{
    let d1 = decimal(encode_channel(c.r));
    let d2 = decimal(encode_channel(c.g));
    let d3 = decimal(encode_channel(c.b));
    let x1 = d1 + seq![32u8];
    let x2 = d2 + seq![32u8];
    let x3 = d3 + seq![10u8];
    assert(pixel_line(c) =~= x1 + (x2 + x3));
    lemma_decimal_token(encode_channel(c.r), 32);
    lemma_decimal_token(encode_channel(c.g), 32);
    lemma_decimal_token(encode_channel(c.b), 10);
    lemma_tokens_concat(x1, x2 + x3, 0);
    lemma_tokens_concat(x2, x3, 0);
    assert(seq![d1] + (seq![d2] + seq![d3]) =~= seq![d1, d2, d3]);
}

pub proof fn lemma_pixels_text(cells: Seq<Color>)
    ensures
        cells.len() > 0 ==> pixels_text(cells).len() > 0 && pixels_text(cells).last() == 10,
        tokens_from(pixels_text(cells), 0) == channel_tokens(cells),
    decreases cells.len(),
{
    if cells.len() > 0 {
        let dl = cells.drop_last();
        lemma_pixels_text(dl);
        let c = cells.last();
        let pl = pixel_line(c);
        lemma_pixel_line_tokens(c);
        if dl.len() == 0 {
            assert(pixels_text(dl) + pl =~= pl);
            assert(channel_tokens(dl) + tokens_from(pl, 0) =~= tokens_from(pl, 0));
        } else {
            lemma_tokens_concat(pixels_text(dl), pl, 0);
        }
    }
}

/// Reading a run of tokens that all read cleanly, then the rest.
pub proof fn lemma_read_channels_concat(
    t1: Seq<Seq<u8>>,
    t2: Seq<Seq<u8>>,
    c1: Seq<u64>,
    k2: nat,
    max: nat,
)
    requires
        read_channels(t1, t1.len(), max) == Ok::<Seq<u64>, DecodeError>(c1),
    ensures
        read_channels(t1 + t2, t1.len() + k2, max) == prepend(c1, read_channels(t2, k2, max)),
    decreases t1.len(),
{
    if t1.len() == 0 {
        assert(t1 + t2 =~= t2);
        assert(c1 =~= Seq::<u64>::empty());
        match read_channels(t2, k2, max) {
            Ok(r) => {
                assert(c1 + r =~= r);
            },
            Err(_) => {},
        }
    } else {
        let c = channel_of(t1[0], max)->Ok_0;
        let rest1 = read_channels(t1.drop_first(), (t1.len() - 1) as nat, max)->Ok_0;
        assert((t1 + t2)[0] == t1[0]);
        assert((t1 + t2).drop_first() =~= t1.drop_first() + t2);
        lemma_read_channels_concat(t1.drop_first(), t2, rest1, k2, max);
        assert(t1.drop_first().len() + k2 == (t1.len() + k2 - 1) as nat);
        match read_channels(t2, k2, max) {
            Ok(r) => {
                assert(seq![c] + (rest1 + r) =~= c1 + r);
            },
            Err(_) => {},
        }
    }
}

/// A channel that an 8-bit value stands for exactly.
pub open spec fn exact_8bit(x: u64) -> bool {
    x % 257 == 0 && x <= CHANNEL_ONE
}

pub proof fn lemma_exact_channel(x: u64)
    requires
        exact_8bit(x),
    ensures
        channel_of(decimal(encode_channel(x)), 255) == Ok::<u64, DecodeError>(x),
{
    let v = (x / 257) as nat;
    assert(x == 257 * v);
    lemma_channel_round_trip(v);
    lemma_decimal(v);
}

pub proof fn lemma_read_triple(c: Color)
    requires
        exact_8bit(c.r),
        exact_8bit(c.g),
        exact_8bit(c.b),
    ensures
        read_channels(
            seq![
                decimal(encode_channel(c.r)),
                decimal(encode_channel(c.g)),
                decimal(encode_channel(c.b)),
            ],
            3,
            255,
        ) == Ok::<Seq<u64>, DecodeError>(seq![c.r, c.g, c.b]),
{
    let t3 = seq![
        decimal(encode_channel(c.r)),
        decimal(encode_channel(c.g)),
        decimal(encode_channel(c.b)),
    ];
    let t2 = t3.drop_first();
    let t1 = t2.drop_first();
    let t0 = t1.drop_first();
    lemma_exact_channel(c.r);
    lemma_exact_channel(c.g);
    lemma_exact_channel(c.b);
    assert(t0 =~= Seq::<Seq<u8>>::empty());
    assert(t1[0] == t3[2]);
    assert(t2[0] == t3[1]);
    assert(read_channels(t0, 0, 255) == Ok::<Seq<u64>, DecodeError>(Seq::empty()));
    assert(read_channels(t1, 1, 255) == Ok::<Seq<u64>, DecodeError>(
        seq![c.b] + Seq::<u64>::empty(),
    ));
    assert(seq![c.b] + Seq::<u64>::empty() =~= seq![c.b]);
    assert(read_channels(t2, 2, 255) == Ok::<Seq<u64>, DecodeError>(seq![c.g] + seq![c.b]));
    assert(seq![c.r] + (seq![c.g] + seq![c.b]) =~= seq![c.r, c.g, c.b]);
}

pub proof fn lemma_read_pixels(cells: Seq<Color>)
    requires
        forall|i: int|
            0 <= i < cells.len() ==> exact_8bit(#[trigger] cells[i].r) && exact_8bit(cells[i].g)
                && exact_8bit(cells[i].b),
    ensures
        channel_tokens(cells).len() == 3 * cells.len(),
        read_channels(channel_tokens(cells), 3 * cells.len(), 255) == Ok::<Seq<u64>, DecodeError>(
            flat_channels(cells),
        ),
    decreases cells.len(),
{
    if cells.len() > 0 {
        let dl = cells.drop_last();
        let c = cells.last();
        assert(exact_8bit(cells[cells.len() - 1].r));
        lemma_read_pixels(dl);
        let t2 = seq![
            decimal(encode_channel(c.r)),
            decimal(encode_channel(c.g)),
            decimal(encode_channel(c.b)),
        ];
        lemma_read_triple(c);
        lemma_read_channels_concat(channel_tokens(dl), t2, flat_channels(dl), 3, 255);
        assert(3 * dl.len() + 3 == 3 * cells.len());
    }
}

pub proof fn lemma_flat_channels(cells: Seq<Color>)
    ensures
        flat_channels(cells).len() == 3 * cells.len(),
        pixels_of(flat_channels(cells), cells.len()) == cells,
    decreases cells.len(),
{
    if cells.len() > 0 {
        let dl = cells.drop_last();
        lemma_flat_channels(dl);
        let f = flat_channels(cells);
        let fd = flat_channels(dl);
        assert forall|i: int| 0 <= i < cells.len() implies #[trigger] pixels_of(f, cells.len())[i]
            == cells[i] by {
            if i < dl.len() {
                assert(pixels_of(fd, dl.len())[i] == dl[i]);
            }
        }
        assert(pixels_of(f, cells.len()) =~= cells);
    }
}

/// Writing an image whose channels are exact 8-bit values and reading the text
/// back gives the same image; so writing that image again reproduces the text.
pub proof fn lemma_round_trip(img: Grid<Color>)
    requires
        img.wf(),
        img.width <= usize::MAX,
        img.height <= usize::MAX,
        forall|i: int|
            0 <= i < img.cells.len() ==> exact_8bit(#[trigger] img.cells[i].r) && exact_8bit(
                img.cells[i].g,
            ) && exact_8bit(img.cells[i].b),
    ensures
        decode_spec(encode_spec(img)) == Ok::<Grid<Color>, DecodeError>(img),
        decode_spec(encode_spec(img)) matches Ok(g) && encode_spec(g) == encode_spec(img),
{
    let s = encode_spec(img);
    let a = seq![80u8, 51u8, 10u8];
    let dw = decimal(img.width);
    let dh = decimal(img.height);
    let d255 = decimal(255);
    assert(decimal(2) == seq![50u8]);
    assert(decimal(25) =~= seq![50u8, 53u8]);
    assert(decimal(255) =~= seq![50u8, 53u8, 53u8]);
    let pix = pixels_text(img.cells);
    let x1 = dw + seq![32u8];
    let x2 = dh + seq![10u8];
    let x3 = d255 + seq![10u8];
    assert(s =~= a + (x1 + (x2 + (x3 + pix))));
    lemma_tokens_concat(a, x1 + (x2 + (x3 + pix)), 2);
    assert(tokens_from(a, 2) == tokens_from(a, 3));
    lemma_tokens_concat(x1, x2 + (x3 + pix), 0);
    lemma_tokens_concat(x2, x3 + pix, 0);
    lemma_tokens_concat(x3, pix, 0);
    lemma_decimal_token(img.width, 32);
    lemma_decimal_token(img.height, 10);
    lemma_decimal_token(255, 10);
    lemma_pixels_text(img.cells);
    let ct = channel_tokens(img.cells);
    let toks = tokens_from(s, 2);
    assert(toks =~= seq![dw, dh, d255] + ct);
    lemma_decimal(img.width);
    lemma_decimal(img.height);
    lemma_decimal(255);
    assert(toks[0] == dw);
    assert(toks[1] == dh);
    assert(toks[2] == d255);
    assert(toks.subrange(3, toks.len() as int) =~= ct);
    lemma_read_pixels(img.cells);
    lemma_flat_channels(img.cells);
    let w = img.width as usize;
    let h = img.height as usize;
    assert((3 * w * h) as nat == 3 * img.cells.len()) by (nonlinear_arith)
        requires
            img.cells.len() == img.width * img.height,
            w == img.width,
            h == img.height,
    ;
    assert((w * h) as nat == img.cells.len());
}

} // verus!
