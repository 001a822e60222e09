use vstd::prelude::*;
use crate::board::{Board, BoardView, CastlingRights, Piece, piece_on};

verus! {

/// Calls std's `String::push`. Trusted: its contract claims that the call
/// leaves the string's characters followed by `c`, nothing else changed.
#[verifier::external_body]
pub(crate) fn push_char(s: &mut String, c: char)
    ensures
        final(s)@ == old(s)@.push(c),
{
    s.push(c);
}

/// FEN letter of a piece kind: upper case for white, lower case for black.
pub open spec fn piece_char_spec(p: Piece) -> char {
    match p {
        Piece::WhitePawn => 'P',
        Piece::WhiteKnight => 'N',
        Piece::WhiteBishop => 'B',
        Piece::WhiteRook => 'R',
        Piece::WhiteQueen => 'Q',
        Piece::WhiteKing => 'K',
        Piece::BlackPawn => 'p',
        Piece::BlackKnight => 'n',
        Piece::BlackBishop => 'b',
        Piece::BlackRook => 'r',
        Piece::BlackQueen => 'q',
        Piece::BlackKing => 'k',
    }
}

pub fn piece_char(piece: Piece) -> (c: char)
    ensures
        c == piece_char_spec(piece),
{
    match piece {
        Piece::WhitePawn => 'P',
        Piece::WhiteKnight => 'N',
        Piece::WhiteBishop => 'B',
        Piece::WhiteRook => 'R',
        Piece::WhiteQueen => 'Q',
        Piece::WhiteKing => 'K',
        Piece::BlackPawn => 'p',
        Piece::BlackKnight => 'n',
        Piece::BlackBishop => 'b',
        Piece::BlackRook => 'r',
        Piece::BlackQueen => 'q',
        Piece::BlackKing => 'k',
    }
}

/// The character with code `n`.
pub open spec fn ascii(n: int) -> char {
    n as char
}

/// A count of empty squares, `1..=8`, as a digit.
pub open spec fn digit_char(n: int) -> char {
    ascii(48 + n)
}

/// The characters of a rank from file `f` on, `run` empty squares pending:
/// runs of empty squares as a digit, pieces as their letters.
pub open spec fn rank_chars(b: BoardView, rank: int, f: int, run: int) -> Seq<char>
    decreases 8 - f,
{
    if f >= 8 {
        if run > 0 { seq![digit_char(run)] } else { seq![] }
    } else {
        match piece_on(b.bb, rank * 8 + f) {
            Some(p) => (if run > 0 { seq![digit_char(run)] } else { seq![] }) + seq![piece_char_spec(p)]
                + rank_chars(b, rank, f + 1, 0),
            None => rank_chars(b, rank, f + 1, run + 1),
        }
    }
}

/// Ranks `rank` down to 1 (index 0), separated by '/'.
pub open spec fn placement_from(b: BoardView, rank: int) -> Seq<char>
    decreases rank,
{
    if rank <= 0 {
        rank_chars(b, 0, 0, 0)
    } else {
        rank_chars(b, rank, 0, 0) + seq!['/'] + placement_from(b, rank - 1)
    }
}

pub open spec fn castling_chars(r: CastlingRights) -> Seq<char> {
    let s = (if r.white_kingside { seq!['K'] } else { seq![] }) + (if r.white_queenside { seq!['Q'] } else { seq![] })
        + (if r.black_kingside { seq!['k'] } else { seq![] }) + (if r.black_queenside { seq!['q'] } else { seq![] });
    if s.len() == 0 { seq!['-'] } else { s }
}

/// Place of a castling letter in the order `KQkq`.
pub open spec fn castling_letter_rank(c: char) -> int {
    if c == 'K' { 0 } else if c == 'Q' { 1 } else if c == 'k' { 2 } else if c == 'q' { 3 } else { 4 }
}

/// Each castling letter of the FEN field reflects its own right: `K`, `Q`,
/// `k` and `q` appear exactly when white kingside, white queenside, black
/// kingside and black queenside castling are allowed, each at most once and in
/// the order `KQkq`; the field is `-` exactly when no right is left.
pub proof fn lemma_castling_chars(r: CastlingRights)
    ensures
        castling_chars(r).contains('K') <==> r.white_kingside,
        castling_chars(r).contains('Q') <==> r.white_queenside,
        castling_chars(r).contains('k') <==> r.black_kingside,
        castling_chars(r).contains('q') <==> r.black_queenside,
        (castling_chars(r) == seq!['-']) <==> !(r.white_kingside || r.white_queenside || r.black_kingside
            || r.black_queenside),
        castling_chars(r) != seq!['-'] ==> forall|i: int, j: int|
            0 <= i < j < castling_chars(r).len() ==> castling_letter_rank(#[trigger] castling_chars(r)[i])
                < castling_letter_rank(#[trigger] castling_chars(r)[j]) < 4,
        1 <= castling_chars(r).len() <= 4,
{
    let c = castling_chars(r);
    let wk = if r.white_kingside { seq!['K'] } else { seq![] };
    let wq = if r.white_queenside { seq!['Q'] } else { seq![] };
    let bk = if r.black_kingside { seq!['k'] } else { seq![] };
    let bq = if r.black_queenside { seq!['q'] } else { seq![] };
    let t = wk + wq + bk + bq;
    assert(t.len() == wk.len() + wq.len() + bk.len() + bq.len());
    assert forall|i: int| 0 <= i < t.len() implies #[trigger] t[i] == (if i < wk.len() { 'K' } else if i < wk.len()
        + wq.len() { 'Q' } else if i < wk.len() + wq.len() + bk.len() { 'k' } else { 'q' }) by {
        assert((wk + wq + bk + bq)[i] == if i < (wk + wq + bk).len() { (wk + wq + bk)[i] } else { bq[i - (wk + wq + bk).len()] });
        if i < (wk + wq + bk).len() {
            assert((wk + wq + bk)[i] == if i < (wk + wq).len() { (wk + wq)[i] } else { bk[i - (wk + wq).len()] });
            if i < (wk + wq).len() {
                assert((wk + wq)[i] == if i < wk.len() { wk[i] } else { wq[i - wk.len()] });
            }
        }
    }
    if t.len() == 0 {
        assert(c == seq!['-']);
        assert(!c.contains('K') && !c.contains('Q') && !c.contains('k') && !c.contains('q')) by {
            assert(c[0] == '-');
        }
    } else {
        assert(c == t);
        assert(c.len() != 1 || c[0] != '-');
        if r.white_kingside { assert(c[0] == 'K'); }
        if r.white_queenside { assert(c[wk.len() as int] == 'Q'); }
        if r.black_kingside { assert(c[(wk.len() + wq.len()) as int] == 'k'); }
        if r.black_queenside { assert(c[(wk.len() + wq.len() + bk.len()) as int] == 'q'); }
    }
}

/// Algebraic name of a square: file letter then rank digit. Rank and file
/// are taken modulo 256, as a byte.
pub open spec fn algebraic(rank: int, file: int) -> Seq<char> {
    seq![ascii(97 + file % 256), ascii(49 + rank % 256)]
}

/// The square's characters stay within a byte.
pub open spec fn square_nameable(rank: int, file: int) -> bool {
    file % 256 <= 158 && rank % 256 <= 206
}

pub open spec fn ep_chars(ep: Option<(usize, usize)>) -> Seq<char> {
    match ep {
        Some((r, f)) => algebraic(r as int, f as int),
        None => seq!['-'],
    }
}

/// The position in Forsyth-Edwards notation. Halfmove clock and fullmove
/// number are not tracked: they are always 0 and 1.
pub open spec fn fen(b: BoardView, white_to_move: bool) -> Seq<char> {
    placement_from(b, 7) + seq![' ', if white_to_move { 'w' } else { 'b' }, ' '] + castling_chars(b.rights)
        + seq![' '] + ep_chars(b.ep) + seq![' ', '0', ' ', '1']
}

pub fn square_to_algebraic(rank: usize, file: usize) -> (r: String)
    requires
        square_nameable(rank as int, file as int),
    ensures
        r@ == algebraic(rank as int, file as int),
{
    let fb: u8 = #[verifier::truncate] (file as u8);
    let rb: u8 = #[verifier::truncate] (rank as u8);
    assert(fb == file % 256) by (bit_vector)
        requires fb == #[verifier::truncate] (file as u8);
    assert(rb == rank % 256) by (bit_vector)
        requires rb == #[verifier::truncate] (rank as u8);
    let file_char = (97u8 + fb) as char;
    let rank_char = (49u8 + rb) as char;
    let mut s = String::new();
    push_char(&mut s, file_char);
    push_char(&mut s, rank_char);
    s
}


/// A count `1..=8` as a digit.
fn digit(n: u8) -> (c: char)
    requires
        1 <= n <= 8,
    ensures
        c == digit_char(n as int),
{
    (48u8 + n) as char
}

/// Appends several characters.
fn push_chars(s: &mut String, cs: &[char])
    ensures
        final(s)@ == old(s)@ + cs@,
{
    let ghost start = s@;
    let mut i: usize = 0;
    while i < cs.len()
        invariant
            i <= cs@.len(),
            s@ == start + cs@.subrange(0, i as int),
        decreases cs@.len() - i,
    {
        push_char(s, cs[i]);
        i += 1;
        assert(s@ =~= start + cs@.subrange(0, i as int));
    }
    assert(cs@.subrange(0, cs@.len() as int) =~= cs@);
}

/// Appends one rank of the placement field.
fn push_rank(s: &mut String, board: &Board, rank: usize)
    requires
        rank < 8,
    ensures
        final(s)@ == old(s)@ + rank_chars(board@, rank as int, 0, 0),
{
    let ghost b = board@;
    let ghost prefix = s@;
    let mut empty_run: u8 = 0;
    let mut file: usize = 0;
    while file < 8
        invariant
            file <= 8,
            rank < 8,
            empty_run <= file,
            b == board@,
            s@ + rank_chars(b, rank as int, file as int, empty_run as int) == prefix + rank_chars(b, rank as int, 0, 0),
        decreases 8 - file,
    {
        let occupant = crate::evaluate::piece_at(board, (rank, file));
        match occupant {
            Some(p) => {
                if empty_run > 0 {
                    push_char(s, digit(empty_run));
                    empty_run = 0;
                }
                push_char(s, piece_char(p));
            },
            None => empty_run += 1,
        }
        file += 1;
        assert(s@ + rank_chars(b, rank as int, file as int, empty_run as int) =~= prefix + rank_chars(b, rank as int, 0, 0));
    }
    if empty_run > 0 {
        push_char(s, digit(empty_run));
    }
    assert(s@ =~= prefix + rank_chars(b, rank as int, 0, 0));
}

/// Appends the castling field.
fn push_castling(s: &mut String, rights: &CastlingRights)
    ensures
        final(s)@ == old(s)@ + castling_chars(*rights),
{
    let ghost before = s@;
    let mut any = false;
    if rights.white_kingside {
        push_char(s, 'K');
        any = true;
    }
    if rights.white_queenside {
        push_char(s, 'Q');
        any = true;
    }
    if rights.black_kingside {
        push_char(s, 'k');
        any = true;
    }
    if rights.black_queenside {
        push_char(s, 'q');
        any = true;
    }
    if !any {
        push_char(s, '-');
    }
    assert(s@ =~= before + castling_chars(*rights));
}

/// Converts the board into a standard FEN string. Halfmove clock and
/// fullmove number aren't tracked yet, so they're placeholders (0 / 1).
pub fn board_to_fen(board: &Board, white_to_move: bool) -> (r: String)
    requires
        board.en_passant_target matches Some(t) ==> square_nameable(t.0 as int, t.1 as int),
    ensures
        r@ == fen(board@, white_to_move),
{
    let ghost b = board@;
    let mut s = String::new();
    // 1. Piece placement: FEN goes rank 8 down to rank 1.
    let mut k: usize = 0;
    while k < 8
        invariant
            k <= 8,
            b == board@,
            k < 8 ==> s@ + placement_from(b, 7 - k) == placement_from(b, 7),
            k == 8 ==> s@ == placement_from(b, 7),
        decreases 8 - k,
    {
        let rank: usize = 7 - k;
        let ghost prefix = s@;
        push_rank(&mut s, board, rank);
        if rank != 0 {
            push_char(&mut s, '/');
        }
        k += 1;
        proof {
            if k < 8 {
                assert(s@ + placement_from(b, 7 - k) =~= prefix + placement_from(b, rank as int));
            } else {
                assert(s@ =~= prefix + placement_from(b, rank as int));
            }
        }
    }
    // 2. Active color
    push_char(&mut s, ' ');
    push_char(&mut s, if white_to_move { 'w' } else { 'b' });
    push_char(&mut s, ' ');
    // 3. Castling availability
    push_castling(&mut s, &board.castling_rights);
    push_char(&mut s, ' ');
    let ghost before_ep = s@;
    // 4. En passant target square
    match board.en_passant_target {
        Some((rank, file)) => {
            let name = square_to_algebraic(rank, file);
            s.append(name.as_str());
        },
        None => push_char(&mut s, '-'),
    }
    assert(s@ =~= before_ep + ep_chars(b.ep));
    // 5. Halfmove clock, 6. Fullmove number -- placeholders for now.
    let tail = [' ', '0', ' ', '1'];
    push_chars(&mut s, &tail);
    assert(tail@ =~= seq![' ', '0', ' ', '1']);
    assert(s@ =~= fen(b, white_to_move));
    s
}


/// What the text diagram shows on a square: the piece letter, or '.'.
pub open spec fn square_symbol(b: BoardView, sq: int) -> char {
    match piece_on(b.bb, sq) {
        Some(p) => piece_char_spec(p),
        None => '.',
    }
}

/// Files `f..8` of a rank in the diagram, each symbol followed by a space,
/// then a line break.
pub open spec fn diagram_row(b: BoardView, rank: int, f: int) -> Seq<char>
    decreases 8 - f,
{
    if f >= 8 {
        seq!['\n']
    } else {
        seq![square_symbol(b, rank * 8 + f), ' '] + diagram_row(b, rank, f + 1)
    }
}

/// Ranks `rank` down to 1 of the diagram.
pub open spec fn diagram_from(b: BoardView, rank: int) -> Seq<char>
    decreases rank,
{
    if rank <= 0 {
        diagram_row(b, 0, 0)
    } else {
        diagram_row(b, rank, 0) + diagram_from(b, rank - 1)
    }
}

/// The board as text, rank 8 at the top: one line per rank, each square's
/// letter (or '.') followed by a space.
pub fn board_diagram(board: &Board) -> (r: String)
    ensures
        r@ == diagram_from(board@, 7),
{
    let ghost b = board@;
    let mut s = String::new();
    let mut k: usize = 0;
    while k < 8
        invariant
            k <= 8,
            b == board@,
            k < 8 ==> s@ + diagram_from(b, 7 - k) == diagram_from(b, 7),
            k == 8 ==> s@ == diagram_from(b, 7),
        decreases 8 - k,
    {
        let rank: usize = 7 - k;
        let ghost prefix = s@;
        let mut file: usize = 0;
        while file < 8
            invariant
                file <= 8,
                rank < 8,
                b == board@,
                s@ + diagram_row(b, rank as int, file as int) == prefix + diagram_row(b, rank as int, 0),
            decreases 8 - file,
        {
            let c = match crate::evaluate::piece_at(board, (rank, file)) {
                Some(p) => piece_char(p),
                None => '.',
            };
            push_char(&mut s, c);
            push_char(&mut s, ' ');
            file += 1;
            assert(s@ + diagram_row(b, rank as int, file as int) =~= prefix + diagram_row(b, rank as int, 0));
        }
        push_char(&mut s, '\n');
        assert(s@ =~= prefix + diagram_row(b, rank as int, 0));
        k += 1;
        proof {
            if k < 8 {
                assert(s@ + diagram_from(b, 7 - k) =~= prefix + diagram_from(b, rank as int));
            } else {
                assert(s@ =~= prefix + diagram_from(b, rank as int));
            }
        }
    }
    s
}

} // verus!
