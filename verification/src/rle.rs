//! Run-length encoding of glyph rows: consecutive identical glyphs become an
//! explicit (glyph, count) token once the run is longer than a threshold;
//! shorter runs stay as repeated literal glyphs.

use vstd::arithmetic::div_mod::lemma_div_decreases;
use vstd::arithmetic::div_mod::lemma_div_pos_is_pos;
use vstd::prelude::*;

verus! {

/// One element of an encoded row: either a single literal glyph, or an
/// explicit token for a run of `count` copies of a glyph.
#[derive(Clone, Copy, PartialEq, Eq, Debug)]
pub enum RlePiece {
    Lit(char),
    Run(char, usize),
}

/// A literal piece for glyph `c`.
pub open spec fn lit_piece(c: char) -> RlePiece {
    RlePiece::Lit(c)
}

/// An explicit run token for `n` copies of glyph `c`.
pub open spec fn run_piece(c: char, n: int) -> RlePiece {
    RlePiece::Run(c, n as usize)
}

/// Length of the run of identical glyphs at the front of `row`.
pub open spec fn leading_run(row: Seq<char>) -> int
    decreases row.len(),
{
    if row.len() == 0 {
        0
    } else if row.len() == 1 || row[1] != row[0] {
        1
    } else {
        1 + leading_run(row.skip(1))
    }
}

proof fn lemma_leading_run_bounds(row: Seq<char>)
    requires
        row.len() > 0,
    ensures
        1 <= leading_run(row) <= row.len(),
        forall|k: int| 0 <= k < leading_run(row) ==> #[trigger] row[k] == row[0],
        leading_run(row) < row.len() ==> row[leading_run(row)] != row[0],
    decreases row.len(),
{
    if row.len() == 1 || row[1] != row[0] {
    } else {
        lemma_leading_run_bounds(row.skip(1));
        assert forall|k: int| 0 <= k < leading_run(row) implies #[trigger] row[k] == row[0] by {
            if k >= 1 {
                assert(row.skip(1)[k - 1] == row[k]);
                assert(row.skip(1)[0] == row[1]);
            }
        }
    }
}

/// The leading run is exactly `n` when the first `n` glyphs agree and the
/// glyph after them (if any) differs.
proof fn lemma_leading_run_is(row: Seq<char>, n: int)
    requires
        1 <= n <= row.len(),
        forall|k: int| 0 <= k < n ==> #[trigger] row[k] == row[0],
        n < row.len() ==> row[n] != row[0],
    ensures
        leading_run(row) == n,
    decreases n,
{
    assert(forall|k: int| 0 <= k < row.len() - 1 ==> row.skip(1)[k] == row[k + 1]);
    if n == 1 {
    } else {
        assert(row[1] == row[0]);
        lemma_leading_run_is(row.skip(1), n - 1);
    }
}

/// The encoded form of a row: runs longer than the threshold `t` become one
/// explicit token; runs of length at most `t` stay as that many literals.
pub open spec fn spec_encode(row: Seq<char>, t: int) -> Seq<RlePiece>
    decreases row.len(),
        via spec_encode_decreases
{
    if row.len() == 0 {
        Seq::empty()
    } else {
        let n = leading_run(row);
        let block = if n > t {
            seq![run_piece(row[0], n)]
        } else {
            Seq::new(n as nat, |k: int| lit_piece(row[0]))
        };
        block + spec_encode(row.skip(n), t)
    }
}

#[via_fn]
proof fn spec_encode_decreases(row: Seq<char>, t: int) {
    if row.len() > 0 {
        lemma_leading_run_bounds(row);
    }
}

/// The glyphs one piece stands for.
pub open spec fn expand_piece(p: RlePiece) -> Seq<char> {
    match p {
        RlePiece::Lit(c) => seq![c],
        RlePiece::Run(c, n) => Seq::new(n as nat, |k: int| c),
    }
}

/// The row a piece stream stands for.
pub open spec fn spec_decode(ps: Seq<RlePiece>) -> Seq<char>
    decreases ps.len(),
{
    if ps.len() == 0 {
        Seq::empty()
    } else {
        expand_piece(ps[0]) + spec_decode(ps.skip(1))
    }
}

proof fn lemma_decode_append(a: Seq<RlePiece>, b: Seq<RlePiece>)
    ensures
        spec_decode(a + b) == spec_decode(a) + spec_decode(b),
    decreases a.len(),
{
    if a.len() == 0 {
        assert(a + b =~= b);
        assert(spec_decode(a) + spec_decode(b) =~= spec_decode(b));
    } else {
        assert((a + b).skip(1) =~= a.skip(1) + b);
        lemma_decode_append(a.skip(1), b);
        assert((a + b)[0] == a[0]);
        assert(spec_decode(a + b) =~= spec_decode(a) + spec_decode(b));
    }
}

proof fn lemma_decode_lits(c: char, n: nat)
    ensures
        spec_decode(Seq::new(n, |k: int| lit_piece(c))) == Seq::new(n, |k: int| c),
    decreases n,
{
    let ps = Seq::new(n, |k: int| lit_piece(c));
    if n == 0 {
        assert(Seq::new(n, |k: int| c) =~= Seq::<char>::empty());
    } else {
        assert(ps.skip(1) =~= Seq::new((n - 1) as nat, |k: int| lit_piece(c)));
        lemma_decode_lits(c, (n - 1) as nat);
        assert(expand_piece(ps[0]) =~= seq![c]);
        assert(spec_decode(ps) =~= Seq::new(n, |k: int| c));
    }
}

/// Round trip: decoding the encoded piece stream of any row reproduces the
/// row exactly, for every run-length threshold of at least 1.
pub proof fn lemma_rle_round_trip(row: Seq<char>, t: int)
    requires
        t >= 1,
        row.len() <= usize::MAX,
    ensures
        spec_decode(spec_encode(row, t)) == row,
    decreases row.len(),
{
    if row.len() == 0 {
        assert(spec_decode(spec_encode(row, t)) =~= row);
    } else {
        lemma_leading_run_bounds(row);
        let n = leading_run(row);
        let rest = row.skip(n);
        lemma_rle_round_trip(rest, t);
        let block = if n > t {
            seq![run_piece(row[0], n)]
        } else {
            Seq::new(n as nat, |k: int| lit_piece(row[0]))
        };
        lemma_decode_append(block, spec_encode(rest, t));
        if n > t {
            assert(block[0] == run_piece(row[0], n));
            assert(block.skip(1) =~= Seq::<RlePiece>::empty());
            assert(expand_piece(block[0]) =~= Seq::new(n as nat, |k: int| row[0]));
            assert(spec_decode(block.skip(1)) =~= Seq::<char>::empty());
            assert(expand_piece(block[0]) + Seq::<char>::empty() =~= expand_piece(block[0]));
            assert(spec_decode(block) =~= Seq::new(n as nat, |k: int| row[0]));
        } else {
            lemma_decode_lits(row[0], n as nat);
        }
        assert(Seq::new(n as nat, |k: int| row[0]) =~= row.take(n));
        assert(row.take(n) + row.skip(n) =~= row);
        assert(spec_decode(spec_encode(row, t)) =~= row);
    }
}

/// Encodes one row of glyphs: walks the row left to right, grouping
/// consecutive identical glyphs; a run longer than `threshold` is emitted as
/// one explicit token, a shorter run as that many literal glyphs. The final
/// run is always flushed.
pub fn encode_row(row: &Vec<char>, threshold: usize) -> (pieces: Vec<RlePiece>)
    ensures
        pieces@ == spec_encode(row@, threshold as int),
{
    let ghost t = threshold as int;
    let mut pieces: Vec<RlePiece> = Vec::new();
    let mut i: usize = 0;
    proof {
        assert(row@.skip(0) =~= row@);
        assert(pieces@ + spec_encode(row@, t) =~= spec_encode(row@, t));
    }
    while i < row.len()
        invariant
            i <= row@.len(),
            t == threshold as int,
            spec_encode(row@, t) == pieces@ + spec_encode(row@.skip(i as int), t),
        decreases row@.len() - i,
    {
        let c = row[i];
        let mut j = i + 1;
        while j < row.len() && row[j] == c
            invariant
                i < j <= row@.len(),
                c == row@[i as int],
                forall|k: int| i <= k < j ==> row@[k] == row@[i as int],
            decreases row@.len() - j,
        {
            j = j + 1;
        }
        let n = j - i;
        let ghost s = row@.skip(i as int);
        proof {
            assert(forall|k: int| 0 <= k < s.len() ==> s[k] == row@[i + k]);
            lemma_leading_run_is(s, n as int);
        }
        let ghost before = pieces@;
        let ghost block = if n as int > t {
            seq![run_piece(row@[i as int], n as int)]
        } else {
            Seq::new(n as nat, |k: int| lit_piece(row@[i as int]))
        };
        if n > threshold {
            pieces.push(RlePiece::Run(c, n));
            proof {
                assert(run_piece(c, n as int) == RlePiece::Run(c, n));
                assert(pieces@ =~= before + block);
            }
        } else {
            proof {
                assert(pieces@ =~= before + Seq::new(0 as nat, |m: int| lit_piece(c)));
            }
            let mut k: usize = 0;
            while k < n
                invariant
                    k <= n,
                    c == row@[i as int],
                    pieces@ == before + Seq::new(k as nat, |m: int| lit_piece(c)),
                decreases n - k,
            {
                proof {
                    assert(Seq::new((k + 1) as nat, |m: int| lit_piece(c)) =~= Seq::new(
                        k as nat,
                        |m: int| lit_piece(c),
                    ).push(lit_piece(c)));
                    assert(before + Seq::new(k as nat, |m: int| lit_piece(c)).push(lit_piece(c))
                        =~= (before + Seq::new(k as nat, |m: int| lit_piece(c))).push(
                        lit_piece(c),
                    ));
                }
                pieces.push(RlePiece::Lit(c));
                k = k + 1;
            }
            proof {
                assert(pieces@ =~= before + block);
            }
        }
        proof {
            assert(s.skip(n as int) =~= row@.skip(j as int));
            assert(spec_encode(s, t) == block + spec_encode(row@.skip(j as int), t));
            assert(before + (block + spec_encode(row@.skip(j as int), t)) =~= (before + block)
                + spec_encode(row@.skip(j as int), t));
        }
        i = j;
    }
    proof {
        assert(row@.skip(row@.len() as int) =~= Seq::<char>::empty());
        assert(pieces@ + Seq::<RlePiece>::empty() =~= pieces@);
    }
    pieces
}

/// Expands an encoded piece stream back into the row it stands for.
pub fn decode_pieces(pieces: &Vec<RlePiece>) -> (row: Vec<char>)
    ensures
        row@ == spec_decode(pieces@),
{
    let mut row: Vec<char> = Vec::new();
    let mut i: usize = 0;
    proof {
        assert(pieces@.skip(0) =~= pieces@);
        assert(row@ + spec_decode(pieces@) =~= spec_decode(pieces@));
    }
    while i < pieces.len()
        invariant
            i <= pieces@.len(),
            spec_decode(pieces@) == row@ + spec_decode(pieces@.skip(i as int)),
        decreases pieces@.len() - i,
    {
        let ghost before = row@;
        let p = pieces[i];
        match p {
            RlePiece::Lit(c) => {
                row.push(c);
            },
            RlePiece::Run(c, n) => {
                let mut k: usize = 0;
                while k < n
                    invariant
                        k <= n,
                        row@ == before + Seq::new(k as nat, |m: int| c),
                    decreases n - k,
                {
                    proof {
                        assert(Seq::new((k + 1) as nat, |m: int| c) =~= Seq::new(
                            k as nat,
                            |m: int| c,
                        ).push(c));
                        assert(before + Seq::new(k as nat, |m: int| c).push(c) =~= (before
                            + Seq::new(k as nat, |m: int| c)).push(c));
                    }
                    row.push(c);
                    k = k + 1;
                }
            },
        }
        proof {
            assert(row@ =~= before + expand_piece(pieces@[i as int]));
            assert(pieces@.skip(i as int).skip(1) =~= pieces@.skip(i + 1));
            assert(pieces@.skip(i as int)[0] == pieces@[i as int]);
            assert(before + (expand_piece(pieces@[i as int]) + spec_decode(pieces@.skip(i + 1)))
                =~= (before + expand_piece(pieces@[i as int])) + spec_decode(
                pieces@.skip(i + 1),
            ));
        }
        i = i + 1;
    }
    proof {
        assert(pieces@.skip(pieces@.len() as int) =~= Seq::<RlePiece>::empty());
        assert(row@ + Seq::<char>::empty() =~= row@);
    }
    row
}

/// Decimal digit glyph for a value in 0..=9.
pub open spec fn digit_char(d: int) -> char {
    if d == 0 {
        '0'
    } else if d == 1 {
        '1'
    } else if d == 2 {
        '2'
    } else if d == 3 {
        '3'
    } else if d == 4 {
        '4'
    } else if d == 5 {
        '5'
    } else if d == 6 {
        '6'
    } else if d == 7 {
        '7'
    } else if d == 8 {
        '8'
    } else {
        '9'
    }
}

/// Decimal representation of `n >= 0`, most significant digit first.
pub open spec fn dec_digits(n: int) -> Seq<char>
    decreases n,
        via dec_digits_decreases
{
    if n < 10 {
        seq![digit_char(n)]
    } else {
        dec_digits(n / 10) + seq![digit_char(n % 10)]
    }
}

#[via_fn]
proof fn dec_digits_decreases(n: int) {
    if n >= 10 {
        lemma_div_pos_is_pos(n, 10);
        lemma_div_decreases(n, 10);
    }
}

/// The printed form of one piece: a literal glyph stands as itself; a run
/// token prints as `(glyph count)` followed by one space, with one leading
/// space as well unless the token ends the row.
pub open spec fn render_piece(p: RlePiece, is_last: bool) -> Seq<char> {
    match p {
        RlePiece::Lit(c) => seq![c],
        RlePiece::Run(c, n) => (if is_last {
            Seq::<char>::empty()
        } else {
            seq![' ']
        }) + seq!['('] + seq![c] + seq![' '] + dec_digits(n as int) + seq![')'] + seq![' '],
    }
}

/// The printed form of a whole encoded row.
pub open spec fn spec_render(ps: Seq<RlePiece>) -> Seq<char>
    decreases ps.len(),
{
    if ps.len() == 0 {
        Seq::empty()
    } else {
        render_piece(ps[0], ps.len() == 1) + spec_render(ps.skip(1))
    }
}

/// Appends the decimal digits of `n` to `out`, most significant first.
fn push_digits(n: usize, out: &mut Vec<char>)
    ensures
        final(out)@ == old(out)@ + dec_digits(n as int),
    decreases n,
{
    let ghost base = out@;
    if n >= 10 {
        push_digits(n / 10, out);
    }
    let d = n % 10;
    let c: char = if d == 0 {
        '0'
    } else if d == 1 {
        '1'
    } else if d == 2 {
        '2'
    } else if d == 3 {
        '3'
    } else if d == 4 {
        '4'
    } else if d == 5 {
        '5'
    } else if d == 6 {
        '6'
    } else if d == 7 {
        '7'
    } else if d == 8 {
        '8'
    } else {
        '9'
    };
    out.push(c);
    proof {
        if n < 10 {
            assert(out@ =~= base + dec_digits(n as int));
        } else {
            assert(out@ =~= base + (dec_digits(n as int / 10) + seq![digit_char(n as int % 10)]));
        }
    }
}

/// Renders an encoded piece stream as one line of text.
pub fn render_pieces(pieces: &Vec<RlePiece>) -> (out: Vec<char>)
    ensures
        out@ == spec_render(pieces@),
{
    let mut out: Vec<char> = Vec::new();
    let mut i: usize = 0;
    proof {
        assert(pieces@.skip(0) =~= pieces@);
        assert(out@ + spec_render(pieces@) =~= spec_render(pieces@));
    }
    while i < pieces.len()
        invariant
            i <= pieces@.len(),
            spec_render(pieces@) == out@ + spec_render(pieces@.skip(i as int)),
        decreases pieces@.len() - i,
    {
        let ghost before = out@;
        let is_last = i + 1 == pieces.len();
        let p = pieces[i];
        match p {
            RlePiece::Lit(c) => {
                out.push(c);
            },
            RlePiece::Run(c, n) => {
                if !is_last {
                    out.push(' ');
                }
                out.push('(');
                out.push(c);
                out.push(' ');
                push_digits(n, &mut out);
                out.push(')');
                out.push(' ');
            },
        }
        proof {
            assert(out@ =~= before + render_piece(pieces@[i as int], is_last));
            assert(pieces@.skip(i as int).skip(1) =~= pieces@.skip(i + 1));
            assert(pieces@.skip(i as int)[0] == pieces@[i as int]);
            assert(pieces@.skip(i as int).len() == 1 <==> is_last);
            assert(before + (render_piece(pieces@[i as int], is_last) + spec_render(
                pieces@.skip(i + 1),
            )) =~= (before + render_piece(pieces@[i as int], is_last)) + spec_render(
                pieces@.skip(i + 1),
            ));
        }
        i = i + 1;
    }
    proof {
        assert(pieces@.skip(pieces@.len() as int) =~= Seq::<RlePiece>::empty());
        assert(out@ + Seq::<char>::empty() =~= out@);
    }
    out
}

/// Encodes one glyph row and renders it as a line of text.
pub fn encode_row_text(row: &Vec<char>, threshold: usize) -> (out: Vec<char>)
    ensures
        out@ == spec_render(spec_encode(row@, threshold as int)),
{
    let pieces = encode_row(row, threshold);
    render_pieces(&pieces)
}

} // verus!
