//! Textual rendering of a grid: one line per row, each cell right-aligned
//! in a fixed-width field, empty cells drawn as a placeholder glyph; and
//! the round trip from the rendered text back to the cells.

use vstd::prelude::*;
use vstd::string::StringExecFns;

verus! {

/// The characters the rendering uses as separators.
pub open spec fn is_ws(c: char) -> bool {
    c == ' ' || c == '\n'
}

/// The decimal digit character for `d`.
pub open spec fn digit_char(d: int) -> char {
    if d == 0 {
        '0'
    } else if d == 1 {
        '1'
    } else if d == 2 {
        '2'
    } else if d == 3 {
        '3'
    } else if d == 4 {
        '4'
    } else if d == 5 {
        '5'
    } else if d == 6 {
        '6'
    } else if d == 7 {
        '7'
    } else if d == 8 {
        '8'
    } else if d == 9 {
        '9'
    } else {
        '?'
    }
}

/// Decimal digits of `v`, most significant first.
pub open spec fn dec_digits(v: int) -> Seq<char>
    decreases v,
{
    if v < 10 {
        seq![digit_char(v)]
    } else {
        dec_digits(v / 10).push(digit_char(v % 10))
    }
}

/// `10^k`.
pub open spec fn pow10(k: nat) -> int
    decreases k,
{
    if k == 0 {
        1
    } else {
        10 * pow10((k - 1) as nat)
    }
}

/// The token a cell renders as: its digits, or the placeholder `[]`.
pub open spec fn tok(v: u32) -> Seq<char> {
    if v == 0 {
        seq!['[', ']']
    } else {
        dec_digits(v as int)
    }
}

/// `n` spaces.
pub open spec fn spaces(n: int) -> Seq<char> {
    Seq::new(if n < 0 {
        0nat
    } else {
        n as nat
    }, |i: int| ' ')
}

/// Width of the alignment field each cell is drawn in.
pub open spec fn field_width() -> int {
    8
}

/// Spaces put before a cell's token to right-align it in the field.
pub open spec fn pad_len(v: u32) -> int {
    if tok(v).len() >= field_width() {
        0
    } else {
        field_width() - tok(v).len()
    }
}

/// A cell as drawn: padding, then its token.
pub open spec fn field(v: u32) -> Seq<char> {
    spaces(pad_len(v)) + tok(v)
}

/// The rendering of the cells from index `i` on: each cell's field, a
/// newline after the last cell of each row of `w`.
pub open spec fn render_from(s: Seq<u32>, w: int, i: int) -> Seq<char>
    decreases s.len() - i,
{
    if i < 0 || i >= s.len() {
        Seq::empty()
    } else {
        field(s[i]) + (if (i + 1) % w == 0 {
            seq!['\n']
        } else {
            Seq::<char>::empty()
        }) + render_from(s, w, i + 1)
    }
}

/// The whole rendering of a grid of row length `w`.
pub open spec fn spec_render(s: Seq<u32>, w: int) -> Seq<char> {
    render_from(s, w, 0)
}

/// The maximal whitespace-separated tokens of `t`, a token under
/// construction in `cur`.
pub open spec fn split_ws_acc(t: Seq<char>, cur: Seq<char>) -> Seq<Seq<char>>
    decreases t.len(),
{
    if t.len() == 0 {
        if cur.len() == 0 {
            Seq::empty()
        } else {
            seq![cur]
        }
    } else if is_ws(t[0]) {
        if cur.len() == 0 {
            split_ws_acc(t.drop_first(), Seq::empty())
        } else {
            seq![cur] + split_ws_acc(t.drop_first(), Seq::empty())
        }
    } else {
        split_ws_acc(t.drop_first(), cur.push(t[0]))
    }
}

/// The maximal whitespace-separated tokens of `t`.
pub open spec fn split_ws(t: Seq<char>) -> Seq<Seq<char>> {
    split_ws_acc(t, Seq::empty())
}

/// One token per cell, in row-major order.
pub open spec fn token_seq(s: Seq<u32>) -> Seq<Seq<char>> {
    Seq::new(s.len(), |i: int| tok(s[i]))
}

/// A number below `10^k` has at most `k` digits (and at least one).
pub proof fn lemma_dec_len(v: int, k: nat)
    requires
        0 <= v,
        v < pow10(k),
        1 <= k,
    ensures
        1 <= dec_digits(v).len() <= k,
    decreases k,
{
    if v >= 10 {
        assert(pow10(0) == 1);
        assert(pow10(1) == 10);
        assert(k >= 2);
        assert(pow10(k) == 10 * pow10((k - 1) as nat));
        assert(v / 10 < pow10((k - 1) as nat)) by (nonlinear_arith)
            requires
                v < 10 * pow10((k - 1) as nat),
                0 <= v;
        lemma_dec_len(v / 10, (k - 1) as nat);
    }
}

/// Digits are not whitespace.
pub proof fn lemma_dec_not_ws(v: int)
    requires
        0 <= v,
    ensures
        forall|k: int| 0 <= k < dec_digits(v).len() ==> !is_ws(#[trigger] dec_digits(v)[k]),
    decreases v,
{
    if v < 10 {
        assert(dec_digits(v) == seq![digit_char(v)]);
        assert(!is_ws(digit_char(v)));
    } else {
        lemma_dec_not_ws(v / 10);
        assert forall|k: int| 0 <= k < dec_digits(v).len() implies !is_ws(
            #[trigger] dec_digits(v)[k],
        ) by {
            assert(dec_digits(v) == dec_digits(v / 10).push(digit_char(v % 10)));
            if k < dec_digits(v / 10).len() {
                assert(dec_digits(v)[k] == dec_digits(v / 10)[k]);
            } else {
                assert(dec_digits(v)[k] == digit_char(v % 10));
                assert(!is_ws(digit_char(v % 10)));
            }
        }
    }
}

/// Shape of a cell's token below ten million: one to seven non-whitespace
/// characters for an occupied cell, the two-character placeholder when empty.
pub proof fn lemma_tok_shape(v: u32)
    requires
        v < 10000000,
    ensures
        1 <= tok(v).len() <= 7 || v == 0,
        tok(v).len() == 2 || v != 0,
        1 <= pad_len(v),
        forall|k: int| 0 <= k < tok(v).len() ==> !is_ws(#[trigger] tok(v)[k]),
{
    if v == 0 {
    } else {
        assert(pow10(7) == 10000000) by {
            assert(pow10(0) == 1);
            assert(pow10(1) == 10);
            assert(pow10(2) == 100);
            assert(pow10(3) == 1000);
            assert(pow10(4) == 10000);
            assert(pow10(5) == 100000);
            assert(pow10(6) == 1000000);
        }
        lemma_dec_len(v as int, 7);
        lemma_dec_not_ws(v as int);
    }
}

/// Leading whitespace does not affect the split.
pub proof fn lemma_split_ws_prefix(ws: Seq<char>, rest: Seq<char>)
    requires
        forall|k: int| 0 <= k < ws.len() ==> is_ws(#[trigger] ws[k]),
    ensures
        split_ws_acc(ws + rest, Seq::empty()) == split_ws_acc(rest, Seq::empty()),
    decreases ws.len(),
{
    if ws.len() == 0 {
        assert(ws + rest =~= rest);
    } else {
        let t = ws + rest;
        assert(t.len() > 0);
        assert(t[0] == ws[0]);
        assert(t.drop_first() =~= ws.drop_first() + rest);
        lemma_split_ws_prefix(ws.drop_first(), rest);
    }
}

/// A maximal non-whitespace token at the front becomes one element of the
/// split, prefixed by whatever token was under construction.
pub proof fn lemma_split_token(tk: Seq<char>, rest: Seq<char>, cur: Seq<char>)
    requires
        tk.len() >= 1,
        forall|k: int| 0 <= k < tk.len() ==> !is_ws(#[trigger] tk[k]),
        rest.len() == 0 || is_ws(rest[0]),
    ensures
        split_ws_acc(tk + rest, cur) == seq![cur + tk] + split_ws_acc(rest, Seq::empty()),
    decreases tk.len(),
{
    let t = tk + rest;
    assert(t[0] == tk[0]);
    assert(!is_ws(t[0]));
    if tk.len() == 1 {
        assert(t.drop_first() =~= rest);
        let cur2 = cur.push(t[0]);
        assert(cur2 =~= cur + tk);
        assert(cur2.len() >= 1);
        if rest.len() == 0 {
            assert(split_ws_acc(rest, cur2) == seq![cur2]);
            assert(split_ws_acc(rest, Seq::<char>::empty()) == Seq::<Seq<char>>::empty());
            assert(seq![cur2] =~= seq![cur + tk] + Seq::<Seq<char>>::empty());
        } else {
            assert(is_ws(rest[0]));
            assert(split_ws_acc(rest, cur2) == seq![cur2] + split_ws_acc(
                rest.drop_first(),
                Seq::<char>::empty(),
            ));
            assert(split_ws_acc(rest, Seq::<char>::empty()) == split_ws_acc(
                rest.drop_first(),
                Seq::<char>::empty(),
            ));
        }
    } else {
        assert(t.drop_first() =~= tk.drop_first() + rest);
        assert(forall|k: int|
            0 <= k < tk.drop_first().len() ==> !is_ws(#[trigger] tk.drop_first()[k]));
        lemma_split_token(tk.drop_first(), rest, cur.push(t[0]));
        assert(cur.push(t[0]) + tk.drop_first() =~= cur + tk);
    }
}

/// Splitting the rendering from cell `i` on yields exactly the tokens of
/// the remaining cells, in order.
pub proof fn lemma_tokens_from(s: Seq<u32>, w: int, i: int)
    requires
        1 <= w,
        s.len() as int % w == 0,
        0 <= i <= s.len(),
        forall|j: int| 0 <= j < s.len() ==> #[trigger] s[j] < 10000000,
    ensures
        split_ws(render_from(s, w, i)) == Seq::new((s.len() - i) as nat, |k: int| tok(s[i + k])),
    decreases s.len() - i,
{
    if i == s.len() {
        assert(render_from(s, w, i) == Seq::<char>::empty());
        assert(split_ws(Seq::<char>::empty()) == Seq::<Seq<char>>::empty());
        assert(Seq::new(0nat, |k: int| tok(s[i + k])) =~= Seq::<Seq<char>>::empty());
    } else {
        let v = s[i];
        lemma_tok_shape(v);
        let nl: Seq<char> = if (i + 1) % w == 0 {
            seq!['\n']
        } else {
            Seq::<char>::empty()
        };
        let tail = render_from(s, w, i + 1);
        assert(render_from(s, w, i) == field(v) + nl + tail);
        // the rest after this cell's token starts with whitespace or ends
        let rest = nl + tail;
        if nl.len() == 0 {
            assert(i + 1 < s.len()) by {
                if i + 1 == s.len() {
                    assert((i + 1) % w == 0);
                }
            }
            lemma_tok_shape(s[i + 1]);
            assert(tail == field(s[i + 1]) + (if (i + 2) % w == 0 {
                seq!['\n']
            } else {
                Seq::<char>::empty()
            }) + render_from(s, w, i + 2));
            assert(field(s[i + 1])[0] == ' ');
            assert(rest =~= tail);
            assert(rest[0] == ' ');
        } else {
            assert(rest[0] == '\n');
        }
        // strip the padding, then take the token
        assert(field(v) + nl + tail =~= spaces(pad_len(v)) + (tok(v) + rest));
        assert(forall|k: int|
            0 <= k < spaces(pad_len(v)).len() ==> is_ws(#[trigger] spaces(pad_len(v))[k]));
        lemma_split_ws_prefix(spaces(pad_len(v)), tok(v) + rest);
        lemma_split_token(tok(v), rest, Seq::empty());
        assert(Seq::<char>::empty() + tok(v) =~= tok(v));
        // strip the newline, if any, and recurse
        lemma_split_ws_prefix(nl, tail);
        assert(nl + tail =~= rest);
        lemma_tokens_from(s, w, i + 1);
        assert(split_ws(render_from(s, w, i)) == seq![tok(v)] + Seq::new(
            (s.len() - i - 1) as nat,
            |k: int| tok(s[i + 1 + k]),
        ));
        assert(seq![tok(v)] + Seq::new((s.len() - i - 1) as nat, |k: int| tok(s[i + 1 + k]))
            =~= Seq::new((s.len() - i) as nat, |k: int| tok(s[i + k])));
    }
}

/// Rendering round trip: splitting the rendered text on whitespace yields
/// exactly one token per cell, in row-major order — the digits of an
/// occupied cell, the placeholder glyph for an empty one.
pub proof fn lemma_render_round_trip(s: Seq<u32>, w: int)
    requires
        1 <= w,
        s.len() as int % w == 0,
        forall|j: int| 0 <= j < s.len() ==> #[trigger] s[j] < 10000000,
    ensures
        split_ws(spec_render(s, w)) == token_seq(s),
        token_seq(s).len() == s.len(),
{
    lemma_tokens_from(s, w, 0);
    assert(Seq::new(s.len(), |k: int| tok(s[0 + k])) =~= token_seq(s));
}

/// The decimal digit as a one-character piece of text.
fn digit_str(d: u32) -> (r: &'static str)
    requires
        d < 10,
    ensures
        r@ == seq![digit_char(d as int)],
{
    proof {
        reveal_strlit("0");
        reveal_strlit("1");
        reveal_strlit("2");
        reveal_strlit("3");
        reveal_strlit("4");
        reveal_strlit("5");
        reveal_strlit("6");
        reveal_strlit("7");
        reveal_strlit("8");
        reveal_strlit("9");
    }
    if d == 0 {
        "0"
    } else if d == 1 {
        "1"
    } else if d == 2 {
        "2"
    } else if d == 3 {
        "3"
    } else if d == 4 {
        "4"
    } else if d == 5 {
        "5"
    } else if d == 6 {
        "6"
    } else if d == 7 {
        "7"
    } else if d == 8 {
        "8"
    } else {
        "9"
    }
}

/// The digit characters of the collected remainders, in display order.
spec fn rev_digit_chars(t: Seq<u32>) -> Seq<char> {
    Seq::new(t.len(), |i: int| digit_char(t[t.len() - 1 - i] as int))
}

/// Appends the decimal digits of `v`.
fn push_digits(out: &mut String, v: u32)
    requires
        1 <= v,
    ensures
        final(out)@ == old(out)@ + dec_digits(v as int),
{
    let ghost base = out@;
    let mut tmp: Vec<u32> = Vec::new();
    let mut x: u32 = v;
    while x >= 10
        invariant
            1 <= x,
            dec_digits(v as int) == dec_digits(x as int) + rev_digit_chars(tmp@),
            forall|j: int| 0 <= j < tmp@.len() ==> #[trigger] tmp@[j] < 10,
        decreases x,
    {
        let ghost t0 = tmp@;
        tmp.push(x % 10);
        proof {
            assert(rev_digit_chars(tmp@) =~= seq![digit_char((x % 10) as int)] + rev_digit_chars(
                t0,
            ));
            assert(dec_digits(x as int) == dec_digits(x as int / 10).push(
                digit_char(x as int % 10),
            ));
            assert(dec_digits(x as int / 10).push(digit_char(x as int % 10)) =~= dec_digits(
                x as int / 10,
            ) + seq![digit_char(x as int % 10)]);
            assert(dec_digits(v as int) =~= dec_digits((x / 10) as int) + rev_digit_chars(tmp@));
        }
        x = x / 10;
    }
    let ghost t0 = tmp@;
    tmp.push(x);
    proof {
        assert(rev_digit_chars(tmp@) =~= seq![digit_char(x as int)] + rev_digit_chars(t0));
        assert(dec_digits(x as int) == seq![digit_char(x as int)]);
        assert(dec_digits(v as int) =~= rev_digit_chars(tmp@));
    }
    let n: usize = tmp.len();
    let mut i: usize = n;
    while i > 0
        invariant
            i <= n,
            n == tmp@.len(),
            forall|j: int| 0 <= j < tmp@.len() ==> #[trigger] tmp@[j] < 10,
            out@ == base + rev_digit_chars(tmp@).take(n - i),
        decreases i,
    {
        i = i - 1;
        let d: u32 = tmp[i];
        let piece = digit_str(d);
        out.append(piece);
        proof {
            assert(rev_digit_chars(tmp@).take(n - i) =~= rev_digit_chars(tmp@).take(
                n - i - 1,
            ).push(digit_char(tmp@[i as int] as int)));
            assert(out@ =~= base + rev_digit_chars(tmp@).take(n - i));
        }
    }
    proof {
        assert(rev_digit_chars(tmp@).take(n as int) =~= rev_digit_chars(tmp@));
        assert(out@ =~= base + dec_digits(v as int));
    }
}

/// Appends `n` spaces.
fn push_spaces(out: &mut String, n: u32)
    ensures
        final(out)@ == old(out)@ + spaces(n as int),
{
    let ghost base = out@;
    let mut i: u32 = 0;
    while i < n
        invariant
            i <= n,
            out@ == base + spaces(i as int),
        decreases n - i,
    {
        out.append(" ");
        proof {
            reveal_strlit(" ");
            assert(" "@ =~= seq![' ']);
            assert(spaces(i as int + 1) =~= spaces(i as int) + seq![' ']);
            assert(out@ =~= base + spaces(i as int + 1));
        }
        i = i + 1;
    }
}

/// Number of decimal digits of `v`.
fn digit_count(v: u32) -> (c: u32)
    requires
        1 <= v,
    ensures
        c as int == dec_digits(v as int).len(),
        1 <= c <= 10,
{
    proof {
        assert(pow10(10) == 10000000000) by {
            assert(pow10(0) == 1);
            assert(pow10(1) == 10);
            assert(pow10(2) == 100);
            assert(pow10(3) == 1000);
            assert(pow10(4) == 10000);
            assert(pow10(5) == 100000);
            assert(pow10(6) == 1000000);
            assert(pow10(7) == 10000000);
            assert(pow10(8) == 100000000);
            assert(pow10(9) == 1000000000);
        }
        lemma_dec_len(v as int, 10);
    }
    let mut c: u32 = 1;
    let mut x: u32 = v;
    while x >= 10
        invariant
            1 <= x,
            1 <= c,
            dec_digits(v as int).len() == dec_digits(x as int).len() + c - 1,
            dec_digits(v as int).len() <= 10,
            1 <= dec_digits(x as int).len(),
        decreases x,
    {
        proof {
            assert(dec_digits(x as int) == dec_digits(x as int / 10).push(
                digit_char(x as int % 10),
            ));
            assert(1 <= dec_digits(x as int / 10).len()) by {
                if x as int / 10 < 10 {
                }
            }
        }
        x = x / 10;
        c = c + 1;
    }
    c
}

/// Appends one cell as drawn: padding, then its token.
fn push_field(out: &mut String, v: u32)
    ensures
        final(out)@ == old(out)@ + field(v),
{
    let ghost base = out@;
    let tlen: u32 = if v == 0 {
        2
    } else {
        digit_count(v)
    };
    proof {
        assert(tlen as int == tok(v).len());
    }
    let pad: u32 = if tlen >= 8 {
        0
    } else {
        8 - tlen
    };
    proof {
        assert(pad as int == pad_len(v));
    }
    push_spaces(out, pad);
    if v == 0 {
        proof {
            reveal_strlit("[]");
        }
        out.append("[]");
        proof {
            assert("[]"@ =~= seq!['[', ']']);
        }
    } else {
        push_digits(out, v);
    }
    proof {
        assert(out@ =~= base + field(v));
    }
}

impl crate::engine::GameState {
    /// Draws the grid: one line per row, each cell right-aligned in a
    /// fixed-width field, empty cells as the placeholder glyph.
    pub fn render(&self) -> (r: String)
        requires
            self.wf(),
        ensures
            r@ == spec_render(self.cells@, self.width as int),
    {
        let ghost s = self.cells@;
        let ghost wi = self.width as int;
        let mut out = String::new();
        let n: usize = self.cells.len();
        let w_us: usize = self.width as usize;
        let mut i: usize = 0;
        proof {
            assert(out@ + render_from(s, wi, 0) =~= render_from(s, wi, 0));
        }
        while i < n
            invariant
                i <= n,
                n == s.len(),
                self.cells@ == s,
                wi == self.width as int,
                1 <= wi,
                w_us as int == wi,
                out@ + render_from(s, wi, i as int) == render_from(s, wi, 0),
            decreases n - i,
        {
            let ghost before = out@;
            push_field(&mut out, self.cells[i]);
            let nl: bool = (i + 1) % w_us == 0;
            proof {
                assert(nl == ((i as int + 1) % wi == 0));
            }
            if nl {
                proof {
                    reveal_strlit("\n");
                }
                out.append("\n");
                proof {
                    assert("\n"@ =~= seq!['\n']);
                }
            }
            proof {
                assert(render_from(s, wi, i as int) == field(s[i as int]) + (if (i as int + 1) % wi
                    == 0 {
                    seq!['\n']
                } else {
                    Seq::<char>::empty()
                }) + render_from(s, wi, i as int + 1));
                assert(out@ + render_from(s, wi, i as int + 1) =~= before + render_from(
                    s,
                    wi,
                    i as int,
                ));
            }
            i = i + 1;
        }
        proof {
            assert(render_from(s, wi, n as int) == Seq::<char>::empty());
            assert(out@ =~= out@ + render_from(s, wi, n as int));
        }
        out
    }
}

} // verus!
