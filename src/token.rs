use vstd::prelude::*;

use vstd::string::{StrSliceExecFns, StringSliceAdditionalSpecFns};

use crate::error::InterpError;

verus! {

pub const MOVE_RIGHT: u8 = 62;

pub const MOVE_LEFT: u8 = 60;

pub const INCREMENT: u8 = 43;

pub const DECREMENT: u8 = 45;

pub const WRITE_BYTE: u8 = 46;

pub const READ_BYTE: u8 = 44;

pub const LOOP_OPEN: u8 = 91;

pub const LOOP_CLOSE: u8 = 93;

/// One instruction of a program; a loop owns its body.
#[derive(Debug, PartialEq, Eq)]
pub enum Token {
    MoveRight,
    MoveLeft,
    Increment,
    Decrement,
    ReadByte,
    WriteByte,
    Loop(Vec<Token>),
}

/// A parsed program: its top-level instructions in order.
#[derive(Debug, PartialEq, Eq)]
pub struct TokenTree(pub Vec<Token>);

/// One of the six single-byte instructions.
pub open spec fn is_action(b: u8) -> bool {
    b == MOVE_RIGHT || b == MOVE_LEFT || b == INCREMENT || b == DECREMENT || b == WRITE_BYTE
        || b == READ_BYTE
}

/// A byte of the language's alphabet.
pub open spec fn is_command(b: u8) -> bool {
    is_action(b) || b == LOOP_OPEN || b == LOOP_CLOSE
}

/// Every byte of `s` belongs to the alphabet.
pub open spec fn all_commands(s: Seq<u8>) -> bool {
    forall|i: int| 0 <= i < s.len() ==> is_command(#[trigger] s[i])
}

/// The bytes of `s` that belong to the alphabet, in order.
pub open spec fn commands(s: Seq<u8>) -> Seq<u8>
    decreases s.len(),
{
    if s.len() == 0 {
        s
    } else if is_command(s.last()) {
        commands(s.drop_last()).push(s.last())
    } else {
        commands(s.drop_last())
    }
}

/// The instruction that an action byte stands for.
pub open spec fn action_token(b: u8) -> Token {
    if b == MOVE_RIGHT {
        Token::MoveRight
    } else if b == MOVE_LEFT {
        Token::MoveLeft
    } else if b == INCREMENT {
        Token::Increment
    } else if b == DECREMENT {
        Token::Decrement
    } else if b == WRITE_BYTE {
        Token::WriteByte
    } else {
        Token::ReadByte
    }
}

/// Source text of one instruction.
pub open spec fn render(t: Token) -> Seq<u8>
    decreases t, 0nat,
{
    match t {
        Token::MoveRight => seq![MOVE_RIGHT],
        Token::MoveLeft => seq![MOVE_LEFT],
        Token::Increment => seq![INCREMENT],
        Token::Decrement => seq![DECREMENT],
        Token::WriteByte => seq![WRITE_BYTE],
        Token::ReadByte => seq![READ_BYTE],
        Token::Loop(body) => seq![LOOP_OPEN] + render_prefix(body@, body@.len()) + seq![LOOP_CLOSE],
    }
}

/// Source text of the first `n` instructions of `ts`.
pub open spec fn render_prefix(ts: Seq<Token>, n: nat) -> Seq<u8>
    decreases ts, n,
{
    if n == 0 || n > ts.len() {
        Seq::empty()
    } else {
        render_prefix(ts, (n - 1) as nat) + render(ts[n - 1])
    }
}

/// Source text of a sequence of instructions.
pub open spec fn render_all(ts: Seq<Token>) -> Seq<u8> {
    render_prefix(ts, ts.len())
}

/// Loop brackets opened minus loop brackets closed in `s`.
pub open spec fn depth(s: Seq<u8>) -> int
    decreases s.len(),
{
    if s.len() == 0 {
        0
    } else {
        depth(s.drop_last()) + if s.last() == LOOP_OPEN {
            1int
        } else if s.last() == LOOP_CLOSE {
            -1int
        } else {
            0int
        }
    }
}

/// No prefix of `s` closes more loops than it opens.
pub open spec fn no_stray_close(s: Seq<u8>) -> bool {
    forall|i: int| 0 <= i <= s.len() ==> depth(#[trigger] s.subrange(0, i)) >= 0
}

/// The loop brackets of `s` nest and balance.
pub open spec fn balanced(s: Seq<u8>) -> bool {
    depth(s) == 0 && no_stray_close(s)
}

pub proof fn lemma_depth_concat(a: Seq<u8>, b: Seq<u8>)
    ensures
        depth(a + b) == depth(a) + depth(b),
    decreases b.len(),
{
    if b.len() == 0 {
        assert(a + b =~= a);
    } else {
        assert((a + b).drop_last() =~= a + b.drop_last());
        lemma_depth_concat(a, b.drop_last());
    }
}

proof fn lemma_depth_split(s: Seq<u8>, i: int, j: int)
    requires
        0 <= i <= j <= s.len(),
    ensures
        depth(s.subrange(0, j)) == depth(s.subrange(0, i)) + depth(s.subrange(i, j)),
{
    assert(s.subrange(0, j) =~= s.subrange(0, i) + s.subrange(i, j));
    lemma_depth_concat(s.subrange(0, i), s.subrange(i, j));
}

proof fn lemma_no_stray_close_concat(a: Seq<u8>, b: Seq<u8>)
    requires
        no_stray_close(a),
        forall|j: int| 0 <= j <= b.len() ==> depth(a) + depth(#[trigger] b.subrange(0, j)) >= 0,
    ensures
        no_stray_close(a + b),
{
    assert forall|i: int| 0 <= i <= (a + b).len() implies depth(
        #[trigger] (a + b).subrange(0, i),
    ) >= 0 by {
        if i <= a.len() {
            assert((a + b).subrange(0, i) =~= a.subrange(0, i));
        } else {
            assert((a + b).subrange(0, i) =~= a + b.subrange(0, i - a.len()));
            lemma_depth_concat(a, b.subrange(0, i - a.len()));
            assert(depth(a) + depth(b.subrange(0, i - a.len())) >= 0);
        }
    }
}

proof fn lemma_render_prefix_push(ts: Seq<Token>, t: Token, n: nat)
    requires
        n <= ts.len(),
    ensures
        render_prefix(ts.push(t), n) == render_prefix(ts, n),
    decreases n,
{
    if n > 0 {
        lemma_render_prefix_push(ts, t, (n - 1) as nat);
        assert(ts.push(t)[n - 1] == ts[n - 1]);
    }
}

/// Appending an instruction appends its source text.
pub proof fn lemma_render_all_push(ts: Seq<Token>, t: Token)
    ensures
        render_all(ts.push(t)) == render_all(ts) + render(t),
{
    lemma_render_prefix_push(ts, t, ts.len());
    assert(ts.push(t)[ts.len() as int] == t);
}

proof fn lemma_depth_single(b: u8)
    ensures
        depth(seq![b]) == (if b == LOOP_OPEN {
            1int
        } else if b == LOOP_CLOSE {
            -1int
        } else {
            0int
        }),
        b != LOOP_CLOSE ==> no_stray_close(seq![b]),
        forall|j: int| 0 <= j <= 1 ==> depth(#[trigger] seq![b].subrange(0, j)) == if j == 0 {
            0
        } else {
            depth(seq![b])
        },
{
    let s = seq![b];
    assert(s.drop_last() =~= Seq::<u8>::empty());
    assert(depth(Seq::<u8>::empty()) == 0);
    assert(s.subrange(0, 0) =~= Seq::<u8>::empty());
    assert(s.subrange(0, 1) =~= s);
}

proof fn lemma_render_balanced(t: Token)
    ensures
        balanced(render(t)),
    decreases t, 0nat,
{
    let s = render(t);
    match t {
        Token::Loop(body) => {
            let inner = render_prefix(body@, body@.len());
            lemma_render_prefix_balanced(body@, body@.len());
            let open = seq![LOOP_OPEN];
            lemma_depth_single(LOOP_OPEN);
            assert forall|j: int| 0 <= j <= inner.len() implies depth(open) + depth(
                #[trigger] inner.subrange(0, j),
            ) >= 0 by {}
            lemma_no_stray_close_concat(open, inner);
            lemma_depth_concat(open, inner);
            let close = seq![LOOP_CLOSE];
            lemma_depth_single(LOOP_CLOSE);
            lemma_no_stray_close_concat(open + inner, close);
            lemma_depth_concat(open + inner, close);
        },
        Token::MoveRight => lemma_depth_single(MOVE_RIGHT),
        Token::MoveLeft => lemma_depth_single(MOVE_LEFT),
        Token::Increment => lemma_depth_single(INCREMENT),
        Token::Decrement => lemma_depth_single(DECREMENT),
        Token::WriteByte => lemma_depth_single(WRITE_BYTE),
        Token::ReadByte => lemma_depth_single(READ_BYTE),
    }
}

proof fn lemma_render_prefix_balanced(ts: Seq<Token>, n: nat)
    ensures
        balanced(render_prefix(ts, n)),
    decreases ts, n,
{
    if n == 0 || n > ts.len() {
        let e = render_prefix(ts, n);
        assert forall|i: int| 0 <= i <= e.len() implies depth(#[trigger] e.subrange(0, i))
            >= 0 by {
            assert(e.subrange(0, i) =~= Seq::<u8>::empty());
        }
    } else {
        let a = render_prefix(ts, (n - 1) as nat);
        let b = render(ts[n - 1]);
        lemma_render_prefix_balanced(ts, (n - 1) as nat);
        lemma_render_balanced(ts[n - 1]);
        lemma_no_stray_close_concat(a, b);
        lemma_depth_concat(a, b);
    }
}

/// The source text of any instruction sequence has balanced loop brackets.
pub proof fn lemma_render_all_balanced(ts: Seq<Token>)
    ensures
        balanced(render_all(ts)),
{
    lemma_render_prefix_balanced(ts, ts.len());
}

/// An instruction tree as a mathematical value, compared by structure.
pub enum Instr {
    MoveRight,
    MoveLeft,
    Increment,
    Decrement,
    ReadByte,
    WriteByte,
    Loop(Seq<Instr>),
}

/// Structure of a token.
pub open spec fn instr_of(t: Token) -> Instr
    decreases t, 0nat,
{
    match t {
        Token::MoveRight => Instr::MoveRight,
        Token::MoveLeft => Instr::MoveLeft,
        Token::Increment => Instr::Increment,
        Token::Decrement => Instr::Decrement,
        Token::ReadByte => Instr::ReadByte,
        Token::WriteByte => Instr::WriteByte,
        Token::Loop(body) => Instr::Loop(instrs_prefix(body@, body@.len())),
    }
}

/// Structure of the first `n` tokens of `ts`.
pub open spec fn instrs_prefix(ts: Seq<Token>, n: nat) -> Seq<Instr>
    decreases ts, n,
{
    if n == 0 || n > ts.len() {
        Seq::empty()
    } else {
        instrs_prefix(ts, (n - 1) as nat).push(instr_of(ts[n - 1]))
    }
}

/// Structure of a token sequence.
pub open spec fn instrs(ts: Seq<Token>) -> Seq<Instr> {
    instrs_prefix(ts, ts.len())
}

proof fn lemma_prefix_front(ts: Seq<Token>, n: nat)
    requires
        1 <= n <= ts.len(),
    ensures
        render_prefix(ts, n) == render(ts[0]) + render_prefix(ts.drop_first(), (n - 1) as nat),
        instrs_prefix(ts, n) == seq![instr_of(ts[0])] + instrs_prefix(
            ts.drop_first(),
            (n - 1) as nat,
        ),
    decreases n,
{
    let d = ts.drop_first();
    if n == 1 {
        assert(render_prefix(ts, 0) =~= Seq::<u8>::empty());
        assert(render(ts[0]) + render_prefix(d, 0) =~= render(ts[0]));
        assert(Seq::<u8>::empty() + render(ts[0]) =~= render(ts[0]));
        assert(instrs_prefix(ts, 0) =~= Seq::<Instr>::empty());
        assert(instrs_prefix(d, 0) =~= Seq::<Instr>::empty());
        assert(Seq::<Instr>::empty().push(instr_of(ts[0])) =~= seq![instr_of(ts[0])] + Seq::<
            Instr,
        >::empty());
    } else {
        lemma_prefix_front(ts, (n - 1) as nat);
        assert(d[n - 2] == ts[n - 1]);
        assert(render_prefix(ts, n) =~= render(ts[0]) + render_prefix(d, (n - 1) as nat));
        assert(instrs_prefix(ts, n) =~= seq![instr_of(ts[0])] + instrs_prefix(
            d,
            (n - 1) as nat,
        ));
    }
}

/// The structure of a nonempty sequence is that of its first token followed by that of
/// the rest.
pub proof fn lemma_instrs_front(ts: Seq<Token>)
    ensures
        instrs(ts).len() == ts.len(),
        ts.len() > 0 ==> instrs(ts) == seq![instr_of(ts[0])] + instrs(ts.drop_first()),
{
    lemma_instrs_len(ts, ts.len());
    if ts.len() > 0 {
        lemma_prefix_front(ts, ts.len());
    }
}

proof fn lemma_instrs_len(ts: Seq<Token>, n: nat)
    requires
        n <= ts.len(),
    ensures
        instrs_prefix(ts, n).len() == n,
    decreases n,
{
    if n > 0 {
        lemma_instrs_len(ts, (n - 1) as nat);
    }
}

proof fn lemma_render_first(t: Token)
    ensures
        render(t).len() >= 1,
        render(t)[0] != LOOP_CLOSE,
        render(t)[0] == LOOP_OPEN <==> t is Loop,
        !(t is Loop) ==> render(t) == seq![render(t)[0]],
        !(t is Loop) ==> forall|u: Token| !(u is Loop) && #[trigger] render(u)[0] == render(t)[0] ==> u == t,
{
    match t {
        Token::Loop(body) => {
            assert((seq![LOOP_OPEN] + render_prefix(body@, body@.len()) + seq![LOOP_CLOSE])[0]
                == LOOP_OPEN);
        },
        _ => {},
    }
}

#[verifier::spinoff_prover]
#[verifier::rlimit(60)]
proof fn lemma_render_unique(a: Seq<Token>, b: Seq<Token>, x: Seq<u8>, y: Seq<u8>)
    requires
        render_all(a) + x == render_all(b) + y,
        x.len() == 0 || x[0] == LOOP_CLOSE,
        y.len() == 0 || y[0] == LOOP_CLOSE,
    ensures
        instrs(a) == instrs(b),
        x == y,
    decreases render_all(a).len(),
{
    if a.len() == 0 {
        assert(render_all(a) + x =~= x);
        if b.len() > 0 {
            lemma_prefix_front(b, b.len());
            lemma_render_first(b[0]);
            assert((render_all(b) + y)[0] == render(b[0])[0]);
        }
        assert(render_all(b) + y =~= y);
        assert(instrs(a) =~= instrs(b));
    } else if b.len() == 0 {
        lemma_prefix_front(a, a.len());
        lemma_render_first(a[0]);
        assert((render_all(a) + x)[0] == render(a[0])[0]);
        assert(render_all(b) + y =~= y);
    } else {
        let ta = a[0];
        let tb = b[0];
        let a1 = a.drop_first();
        let b1 = b.drop_first();
        lemma_prefix_front(a, a.len());
        lemma_prefix_front(b, b.len());
        lemma_render_first(ta);
        lemma_render_first(tb);
        let lhs = render_all(a) + x;
        assert(lhs =~= render(ta) + (render_all(a1) + x));
        assert(lhs =~= render(tb) + (render_all(b1) + y));
        assert(lhs[0] == render(ta)[0]);
        assert(lhs[0] == render(tb)[0]);
        match ta {
            Token::Loop(p) => {
                match tb {
                    Token::Loop(q) => {
                        let xp = seq![LOOP_CLOSE] + (render_all(a1) + x);
                        let yq = seq![LOOP_CLOSE] + (render_all(b1) + y);
                        assert(lhs.drop_first() =~= render_all(p@) + xp);
                        assert(lhs.drop_first() =~= render_all(q@) + yq);
                        lemma_render_unique(p@, q@, xp, yq);
                        assert(xp.drop_first() =~= render_all(a1) + x);
                        assert(yq.drop_first() =~= render_all(b1) + y);
                        lemma_render_unique(a1, b1, x, y);
                        assert(instr_of(ta) == instr_of(tb));
                    },
                    _ => {},
                }
            },
            _ => {
                assert(ta == tb);
                assert(lhs.drop_first() =~= render_all(a1) + x);
                assert(lhs.drop_first() =~= render_all(b1) + y);
                lemma_render_unique(a1, b1, x, y);
            },
        }
    }
}

/// Two instruction sequences with the same source text have the same structure: the
/// tree that parsing returns is determined by the text it was parsed from.
pub proof fn lemma_render_all_injective(a: Seq<Token>, b: Seq<Token>)
    requires
        render_all(a) == render_all(b),
    ensures
        instrs(a) == instrs(b),
{
    let e = Seq::<u8>::empty();
    assert(render_all(a) + e =~= render_all(a));
    assert(render_all(b) + e =~= render_all(b));
    lemma_render_unique(a, b, e, e);
}

/// Dropping the bytes outside the alphabet a second time changes nothing: parsing, which
/// sees only `commands(s)`, gives the same result on a source and on its filtered form.
pub proof fn lemma_commands_idempotent(s: Seq<u8>)
    ensures
        commands(commands(s)) == commands(s),
        all_commands(commands(s)),
        balanced(commands(commands(s))) == balanced(commands(s)),
    decreases s.len(),
{
    if s.len() > 0 {
        let c = commands(s.drop_last());
        lemma_commands_idempotent(s.drop_last());
        if is_command(s.last()) {
            assert(c.push(s.last()).drop_last() =~= c);
            assert(c.push(s.last()).last() == s.last());
            assert forall|i: int| 0 <= i < c.push(s.last()).len() implies is_command(
                #[trigger] c.push(s.last())[i],
            ) by {
                if i < c.len() {
                    assert(c.push(s.last())[i] == c[i]);
                }
            }
        }
    }
}

/// Bytes outside the alphabet have no effect on parsing: a source and its filtered form
/// are accepted or refused alike, and the trees parsed from them have the same structure.
pub proof fn lemma_parse_ignores_foreign_bytes(s: Seq<u8>, a: Seq<Token>, b: Seq<Token>)
    requires
        render_all(a) == commands(s),
        render_all(b) == commands(commands(s)),
    ensures
        instrs(a) == instrs(b),
        balanced(commands(s)) == balanced(commands(commands(s))),
{
    lemma_commands_idempotent(s);
    lemma_render_all_injective(a, b);
}

/// `s` opens a loop that no later byte closes.
pub open spec fn never_closed(s: Seq<u8>) -> bool {
    forall|n: int| 1 <= n <= s.len() ==> depth(#[trigger] s.subrange(0, n)) >= 1
}

/// A byte that begins an instruction: an action or a loop opening.
pub open spec fn starts_item(b: u8) -> bool {
    is_action(b) || b == LOOP_OPEN
}

impl Token {
    /// The instruction that an action byte stands for; `None` for any other byte.
    pub fn from_symbol(b: u8) -> (r: Option<Token>)
        ensures
            r == (if is_action(b) {
                Some(action_token(b))
            } else {
                None::<Token>
            }),
    {
        if b == MOVE_RIGHT {
            Some(Token::MoveRight)
        } else if b == MOVE_LEFT {
            Some(Token::MoveLeft)
        } else if b == INCREMENT {
            Some(Token::Increment)
        } else if b == DECREMENT {
            Some(Token::Decrement)
        } else if b == WRITE_BYTE {
            Some(Token::WriteByte)
        } else if b == READ_BYTE {
            Some(Token::ReadByte)
        } else {
            None
        }
    }
}

proof fn lemma_prefix_depths(w: Seq<u8>, pos: int, i: int)
    requires
        0 <= pos <= i < w.len(),
        w[i] == LOOP_OPEN,
        no_stray_close(w.subrange(pos, i)),
        depth(w.subrange(pos, i)) == 0,
        forall|n: int|
            i + 1 <= n <= w.len() ==> depth(#[trigger] w.subrange(0, n)) >= depth(
                w.subrange(0, i + 1),
            ),
    ensures
        forall|n: int|
            pos <= n <= w.len() ==> depth(#[trigger] w.subrange(0, n)) >= depth(
                w.subrange(0, pos),
            ),
{
    lemma_depth_split(w, pos, i);
    lemma_depth_split(w, i, i + 1);
    assert(w.subrange(i, i + 1) =~= seq![LOOP_OPEN]);
    lemma_depth_single(LOOP_OPEN);
    assert forall|n: int| pos <= n <= w.len() implies depth(#[trigger] w.subrange(0, n)) >= depth(
        w.subrange(0, pos),
    ) by {
        if n <= i {
            lemma_depth_split(w, pos, n);
            assert(w.subrange(pos, i).subrange(0, n - pos) =~= w.subrange(pos, n));
        }
    }
}

/// Parses instructions of `w` from `pos` on, up to the first byte that begins none.
/// On success, returns where it stopped and the instructions read, whose source text
/// is exactly the bytes passed over.
fn parse_items(w: &[u8], pos: usize) -> (r: Result<(usize, Vec<Token>), InterpError>)
    requires
        pos <= w@.len(),
    ensures
        match r {
            Ok((end, ts)) => {
                &&& pos <= end <= w@.len()
                &&& render_all(ts@) == w@.subrange(pos as int, end as int)
                &&& end < w@.len() ==> !starts_item(w@[end as int])
            },
            Err(e) => {
                &&& e == InterpError::MalformedProgram
                &&& all_commands(w@) ==> depth(w@) > depth(w@.subrange(0, pos as int))
                &&& all_commands(w@) ==> forall|n: int|
                    pos <= n <= w@.len() ==> depth(#[trigger] w@.subrange(0, n)) >= depth(
                        w@.subrange(0, pos as int),
                    )
            },
        },
    decreases w@.len() - pos,
{
    let mut ts: Vec<Token> = Vec::new();
    let mut i: usize = pos;
    assert(render_all(ts@) =~= w@.subrange(pos as int, i as int));
    while i < w.len()
        invariant
            pos <= i <= w@.len(),
            render_all(ts@) == w@.subrange(pos as int, i as int),
        decreases w@.len() - i,
    {
        let b = w[i];
        match Token::from_symbol(b) {
            Some(t) => {
                proof {
                    lemma_render_all_push(ts@, t);
                    assert(w@.subrange(pos as int, i + 1) =~= w@.subrange(pos as int, i as int)
                        + render(t));
                }
                ts.push(t);
                i = i + 1;
            },
            None => {
                if b != LOOP_OPEN {
                    return Ok((i, ts));
                }
                let inner = parse_items(w, i + 1);
                proof {
                    lemma_render_all_balanced(ts@);
                    lemma_depth_split(w@, pos as int, i as int);
                    lemma_depth_split(w@, i as int, i + 1);
                    assert(w@.subrange(i as int, i + 1) =~= seq![LOOP_OPEN]);
                    lemma_depth_single(LOOP_OPEN);
                }
                match inner {
                    Err(e) => {
                        proof {
                            if all_commands(w@) {
                                lemma_prefix_depths(w@, pos as int, i as int);
                            }
                        }
                        return Err(e);
                    },
                    Ok((end, body)) => {
                        if end < w.len() && w[end] == LOOP_CLOSE {
                            let ghost body_text = render_all(body@);
                            let t = Token::Loop(body);
                            proof {
                                lemma_render_all_push(ts@, t);
                                assert(w@.subrange(pos as int, end + 1) =~= w@.subrange(
                                    pos as int,
                                    i as int,
                                ) + render(t));
                            }
                            ts.push(t);
                            i = end + 1;
                        } else {
                            proof {
                                if all_commands(w@) {
                                    assert(end == w@.len());
                                    lemma_render_all_balanced(body@);
                                    lemma_depth_split(w@, i + 1, w@.len() as int);
                                    assert(w@.subrange(0, w@.len() as int) =~= w@);
                                    assert forall|n: int| i + 1 <= n <= w@.len() implies depth(
                                        #[trigger] w@.subrange(0, n),
                                    ) >= depth(w@.subrange(0, i + 1)) by {
                                        lemma_depth_split(w@, i + 1, n);
                                        assert(w@.subrange(i + 1, w@.len() as int).subrange(
                                            0,
                                            n - (i + 1),
                                        ) =~= w@.subrange(i + 1, n));
                                    }
                                    lemma_prefix_depths(w@, pos as int, i as int);
                                }
                            }
                            return Err(InterpError::MalformedProgram);
                        }
                    },
                }
            },
        }
    }
    Ok((i, ts))
}

impl TokenTree {
    /// Parses program text; bytes outside the alphabet are ignored.
    pub fn from_str(program: &str) -> (r: Result<TokenTree, InterpError>)
        ensures
            match r {
                Ok(tree) => render_all(tree.0@) == commands(program.spec_bytes()),
                Err(e) => e == InterpError::MalformedProgram,
            },
            r is Ok <==> balanced(commands(program.spec_bytes())),
    {
        let bytes = program.as_bytes_vec();
        TokenTree::parse(bytes.as_slice())
    }

    /// Parses a program from its source bytes. Bytes outside the alphabet are dropped
    /// first; what is left must be a sequence of instructions with balanced loops.
    pub fn parse(source: &[u8]) -> (r: Result<TokenTree, InterpError>)
        ensures
            match r {
                Ok(tree) => render_all(tree.0@) == commands(source@),
                Err(e) => e == InterpError::MalformedProgram,
            },
            r is Ok <==> balanced(commands(source@)),
    {
        let mut w: Vec<u8> = Vec::new();
        let mut i: usize = 0;
        while i < source.len()
            invariant
                i <= source@.len(),
                w@ == commands(source@.subrange(0, i as int)),
                all_commands(w@),
            decreases source@.len() - i,
        {
            let b = source[i];
            assert(source@.subrange(0, i + 1).drop_last() =~= source@.subrange(0, i as int));
            if b == MOVE_RIGHT || b == MOVE_LEFT || b == INCREMENT || b == DECREMENT || b
                == WRITE_BYTE || b == READ_BYTE || b == LOOP_OPEN || b == LOOP_CLOSE {
                w.push(b);
            }
            i = i + 1;
        }
        assert(source@.subrange(0, source@.len() as int) =~= source@);
        match parse_items(w.as_slice(), 0) {
            Err(e) => {
                proof {
                    assert(w@.subrange(0, 0) =~= Seq::<u8>::empty());
                }
                Err(e)
            },
            Ok((end, ts)) => {
                if end == w.len() {
                    proof {
                        assert(w@.subrange(0, end as int) =~= w@);
                        lemma_render_all_balanced(ts@);
                    }
                    Ok(TokenTree(ts))
                } else {
                    proof {
                        assert(w@.subrange(0, 0) =~= Seq::<u8>::empty());
                        lemma_render_all_balanced(ts@);
                        lemma_depth_split(w@, end as int, end + 1);
                        assert(w@.subrange(end as int, end + 1) =~= seq![LOOP_CLOSE]);
                        lemma_depth_single(LOOP_CLOSE);
                        assert(depth(w@.subrange(0, end + 1)) < 0);
                    }
                    Err(InterpError::MalformedProgram)
                }
            },
        }
    }

    /// Reads one action instruction at the start of `i`, returning the number of bytes
    /// it takes and the instruction.
    pub fn action(i: &[u8]) -> (r: Option<(usize, Token)>)
        ensures
            r == (if i@.len() > 0 && is_action(i@[0]) {
                Some((1usize, action_token(i@[0])))
            } else {
                None::<(usize, Token)>
            }),
    {
        if i.len() == 0 {
            return None;
        }
        match Token::from_symbol(i[0]) {
            Some(t) => Some((1, t)),
            None => None,
        }
    }

    /// Reads one loop at the start of `i`, returning the number of bytes it takes and
    /// the loop instruction, whose source text they are.
    pub fn action_loop(i: &[u8]) -> (r: Option<(usize, Token)>)
        ensures
            match r {
                Some((n, t)) => {
                    &&& n <= i@.len()
                    &&& t is Loop
                    &&& render(t) == i@.subrange(0, n as int)
                },
                None => i@.len() == 0 || i@[0] != LOOP_OPEN || !all_commands(i@) || never_closed(
                    i@,
                ),
            },
            i@.len() > 0 && i@[0] == LOOP_OPEN && all_commands(i@) ==> (r is None <==> never_closed(
                i@,
            )),
    {
        if i.len() == 0 || i[0] != LOOP_OPEN {
            return None;
        }
        let inner = parse_items(i, 1);
        proof {
            assert(i@.subrange(0, 1) =~= seq![LOOP_OPEN]);
            lemma_depth_single(LOOP_OPEN);
        }
        match inner {
            Err(_) => None,
            Ok((end, body)) => {
                if end < i.len() && i[end] == LOOP_CLOSE {
                    let t = Token::Loop(body);
                    assert(i@.subrange(0, end + 1) =~= seq![LOOP_OPEN] + i@.subrange(1, end as int)
                        + seq![LOOP_CLOSE]);
                    proof {
                        lemma_render_balanced(t);
                    }
                    Some((end + 1, t))
                } else {
                    proof {
                        if all_commands(i@) {
                            lemma_render_all_balanced(body@);
                            assert forall|n: int| 1 <= n <= i@.len() implies depth(
                                #[trigger] i@.subrange(0, n),
                            ) >= 1 by {
                                lemma_depth_split(i@, 1, n);
                                assert(i@.subrange(1, i@.len() as int).subrange(0, n - 1)
                                    =~= i@.subrange(1, n));
                            }
                        }
                    }
                    None
                }
            },
        }
    }
}

} // verus!
