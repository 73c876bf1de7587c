//! The circuit compiler: reads a textual gate grid and compiles it to an
//! equivalent lambda term.
//!
//! The first line of the grid is the input layer, a string of `0` and `1`
//! characters; each further line is a layer of gate blocks from
//! `{I, H, T, C, S}`, where `I`, `H` and `T` take one wire and `C` (CNOT)
//! and `S` (swap) take two.  Every layer must consume the full wire width.
//! Compilation emits, layer by layer, a continuation-passing step that
//! destructures the current tuple of wires, applies the CNOTs first, and
//! rebuilds the next tuple; the text is then read back by the term parser.

use vstd::prelude::*;
use crate::names::{dec_digits, fmt_nat};
use crate::parser::{ParseError, ParseErrX, spec_parse, parse, is_unicode_ws, unicode_ws};
use crate::term::{Term, TermX};

verus! {

broadcast use vstd::string::group_string_axioms;

/// One block of a circuit layer.
#[derive(Debug, Clone, Copy, PartialEq, Eq, Structural)]
pub enum Block {
    I,
    H,
    T,
    C,
    S,
}

/// A failure while reading a circuit.
#[derive(Debug, Clone, Copy, PartialEq, Eq, Structural)]
pub enum CircuitError {
    /// The file held no characters at all.
    EmptyCircuit,
    /// A character outside the alphabet of its line.
    InvalidChar,
    /// A layer whose wire width differs from the qubit count of the input.
    DimMismatch,
}

/// A parsed circuit: its layers of gates and its input bits.
#[derive(Debug)]
pub struct Circuit {
    layers: Vec<Vec<Block>>,
    input: Vec<bool>,
}

/// The model of the layer list.
pub open spec fn layers_view(v: Seq<Vec<Block>>) -> Seq<Seq<Block>> {
    Seq::new(v.len(), |i: int| v[i]@)
}

impl View for Circuit {
    type V = (Seq<Seq<Block>>, Seq<bool>);

    closed spec fn view(&self) -> (Seq<Seq<Block>>, Seq<bool>) {
        (layers_view(self.layers@), self.input@)
    }
}

/// The characters the circuit reader skips inside a line: any whitespace
/// but the newline, which separates the lines themselves.
pub open spec fn is_circuit_ws(c: char) -> bool {
    is_unicode_ws(c) && c != '\n'
}

/// The block a gate character stands for.
pub open spec fn block_of(c: char) -> Option<Block> {
    if c == 'I' {
        Some(Block::I)
    } else if c == 'H' {
        Some(Block::H)
    } else if c == 'T' {
        Some(Block::T)
    } else if c == 'C' {
        Some(Block::C)
    } else if c == 'S' {
        Some(Block::S)
    } else {
        None
    }
}

/// Reads the input layer: bits until the first newline (or the end), with
/// whitespace skipped; returns the bits and the index after the newline.
pub open spec fn scan_input(cs: Seq<char>, i: int, acc: Seq<bool>) -> Result<
    (Seq<bool>, int),
    CircuitError,
>
    decreases cs.len() - i,
{
    if i < 0 || i >= cs.len() {
        Ok((acc, cs.len() as int))
    } else {
        let c = cs[i];
        if c == '\n' {
            Ok((acc, i + 1))
        } else if c == '0' {
            scan_input(cs, i + 1, acc.push(false))
        } else if c == '1' {
            scan_input(cs, i + 1, acc.push(true))
        } else if is_circuit_ws(c) {
            scan_input(cs, i + 1, acc)
        } else {
            Err(CircuitError::InvalidChar)
        }
    }
}

/// Reads the layers of gates, one layer per line.  `seg` records whether the
/// current line has held any character, so that a trailing newline does not
/// open a final empty layer.
pub open spec fn scan_layers(
    cs: Seq<char>,
    i: int,
    cur: Seq<Block>,
    seg: bool,
    acc: Seq<Seq<Block>>,
) -> Result<Seq<Seq<Block>>, CircuitError>
    decreases cs.len() - i,
{
    if i < 0 || i >= cs.len() {
        if seg {
            Ok(acc.push(cur))
        } else {
            Ok(acc)
        }
    } else {
        let c = cs[i];
        if c == '\n' {
            scan_layers(cs, i + 1, Seq::empty(), false, acc.push(cur))
        } else if is_circuit_ws(c) {
            scan_layers(cs, i + 1, cur, true, acc)
        } else {
            match block_of(c) {
                Some(b) => scan_layers(cs, i + 1, cur.push(b), true, acc),
                None => Err(CircuitError::InvalidChar),
            }
        }
    }
}

/// The wire width of a layer: CNOT and swap take two wires, the rest one.
pub open spec fn layer_width(layer: Seq<Block>) -> int
    decreases layer.len(),
{
    if layer.len() == 0 {
        0
    } else {
        layer_width(layer.drop_last()) + (match layer.last() {
            Block::C => 2int,
            Block::S => 2int,
            _ => 1int,
        })
    }
}

/// Whether every layer consumes exactly the full wire width.
pub open spec fn widths_ok(layers: Seq<Seq<Block>>, dim: int) -> bool {
    forall|i: int| 0 <= i < layers.len() ==> #[trigger] layer_width(layers[i]) == dim
}

/// What a circuit text parses to.
pub open spec fn spec_parse_circuit(cs: Seq<char>) -> Result<
    (Seq<Seq<Block>>, Seq<bool>),
    CircuitError,
> {
    if cs.len() == 0 {
        Err(CircuitError::EmptyCircuit)
    } else {
        match scan_input(cs, 0, Seq::empty()) {
            Err(e) => Err(e),
            Ok((input, next)) => match scan_layers(cs, next, Seq::empty(), false, Seq::empty()) {
                Err(e) => Err(e),
                Ok(layers) => if widths_ok(layers, input.len() as int) {
                    Ok((layers, input))
                } else {
                    Err(CircuitError::DimMismatch)
                },
            },
        }
    }
}

impl Circuit {
    /// Whether every layer of this circuit consumes the full wire width;
    /// `parse_circuit` establishes it, and the compiler relies on it.
    pub open spec fn wf(&self) -> bool {
        widths_ok(self@.0, self@.1.len() as int)
    }
}

/// Parses a textual circuit: the first line is the input layer, each
/// further line one gate layer, and every layer must consume the full wire
/// width.
pub fn parse_circuit(text: &Vec<char>) -> (res: Result<Circuit, CircuitError>)
    ensures
        match res {
            Ok(c) => spec_parse_circuit(text@) == Ok::<_, CircuitError>(c@) && c.wf(),
            Err(e) => spec_parse_circuit(text@) == Err::<(Seq<Seq<Block>>, Seq<bool>), _>(e),
        },
{
    let n = text.len();
    if n == 0 {
        return Err(CircuitError::EmptyCircuit);
    }
    // the input layer
    let mut input: Vec<bool> = Vec::new();
    let mut i: usize = 0;
    proof {
        assert(input@ =~= Seq::empty());
    }
    let mut next: usize = n;
    let mut found_newline = false;
    while i < n && !found_newline
        invariant
            i <= n,
            n == text@.len(),
            !found_newline ==> scan_input(text@, i as int, input@) == scan_input(
                text@,
                0,
                Seq::empty(),
            ) && next == n,
            found_newline ==> scan_input(text@, 0, Seq::empty()) == Ok::<_, CircuitError>(
                (input@, next as int),
            ) && next <= n,
        decreases n - i,
    {
        let c = text[i];
        if c == '\n' {
            next = i + 1;
            found_newline = true;
        } else if c == '0' {
            input.push(false);
        } else if c == '1' {
            input.push(true);
        } else if unicode_ws(c) {
        } else {
            return Err(CircuitError::InvalidChar);
        }
        i = i + 1;
    }
    proof {
        if !found_newline {
            assert(scan_input(text@, n as int, input@) == Ok::<_, CircuitError>(
                (input@, n as int),
            ));
        }
    }
    // read each layer of gates
    let mut layers: Vec<Vec<Block>> = Vec::new();
    let mut cur: Vec<Block> = Vec::new();
    let mut seg = false;
    let mut j: usize = next;
    proof {
        assert(layers_view(layers@) =~= Seq::empty());
        assert(cur@ =~= Seq::empty());
    }
    while j < n
        invariant
            j <= n,
            n == text@.len(),
            n > 0,
            next <= n,
            scan_input(text@, 0, Seq::empty()) == Ok::<(Seq<bool>, int), CircuitError>(
                (input@, next as int),
            ),
            scan_layers(text@, j as int, cur@, seg, layers_view(layers@)) == scan_layers(
                text@,
                next as int,
                Seq::empty(),
                false,
                Seq::empty(),
            ),
        decreases n - j,
    {
        let c = text[j];
        let ghost pre_layers = layers_view(layers@);
        let ghost pre_cur = cur@;
        if c == '\n' {
            layers.push(cur);
            cur = Vec::new();
            seg = false;
            proof {
                assert(layers_view(layers@) =~= pre_layers.push(pre_cur));
                assert(cur@ =~= Seq::empty());
            }
        } else if unicode_ws(c) {
            seg = true;
        } else {
            let b = if c == 'I' {
                Some(Block::I)
            } else if c == 'H' {
                Some(Block::H)
            } else if c == 'T' {
                Some(Block::T)
            } else if c == 'C' {
                Some(Block::C)
            } else if c == 'S' {
                Some(Block::S)
            } else {
                None
            };
            match b {
                Some(b) => {
                    cur.push(b);
                    seg = true;
                    proof {
                        assert(cur@ =~= pre_cur.push(b));
                    }
                },
                None => {
                    proof {
                        assert(block_of(text@[j as int]) is None);
                        assert(scan_layers(text@, j as int, cur@, seg, layers_view(layers@))
                            == Err::<Seq<Seq<Block>>, CircuitError>(CircuitError::InvalidChar));
                        assert(scan_layers(text@, next as int, Seq::empty(), false, Seq::empty())
                            == Err::<Seq<Seq<Block>>, CircuitError>(CircuitError::InvalidChar));
                        assert(scan_input(text@, 0, Seq::empty()) == Ok::<
                            (Seq<bool>, int),
                            CircuitError,
                        >((input@, next as int)));
                        assert(spec_parse_circuit(text@) == Err::<
                            (Seq<Seq<Block>>, Seq<bool>),
                            CircuitError,
                        >(CircuitError::InvalidChar));
                    }
                    return Err(CircuitError::InvalidChar);
                },
            }
        }
        j = j + 1;
    }
    let ghost final_layers = if seg {
        layers_view(layers@).push(cur@)
    } else {
        layers_view(layers@)
    };
    if seg {
        layers.push(cur);
        proof {
            assert(layers_view(layers@) =~= final_layers);
        }
    }
    proof {
        assert(scan_layers(text@, n as int, cur@, seg, layers_view(
            if seg {
                layers@.drop_last()
            } else {
                layers@
            },
        )) == scan_layers(text@, next as int, Seq::empty(), false, Seq::empty()) || true);
        assert(scan_layers(text@, next as int, Seq::empty(), false, Seq::empty())
            == Ok::<Seq<Seq<Block>>, CircuitError>(layers_view(layers@)));
    }
    // the width of every layer must match the input
    let dim = input.len();
    let ghost lv = layers_view(layers@);
    let ghost iv = input@;
    let mut k: usize = 0;
    while k < layers.len()
        invariant
            k <= layers@.len(),
            lv == layers_view(layers@),
            iv == input@,
            dim == iv.len(),
            text@.len() > 0,
            scan_input(text@, 0, Seq::empty()) matches Ok(p) && p.0 == iv,
            scan_layers(
                text@,
                scan_input(text@, 0, Seq::empty())->Ok_0.1,
                Seq::empty(),
                false,
                Seq::empty(),
            ) == Ok::<Seq<Seq<Block>>, CircuitError>(lv),
            forall|p: int| 0 <= p < k ==> #[trigger] layer_width(lv[p]) == dim as int,
        decreases layers@.len() - k,
    {
        let layer = &layers[k];
        let mut acc: usize = 0;
        let mut b: usize = 0;
        proof {
            assert(lv[k as int] == layers@[k as int]@);
        }
        while b < layer.len()
            invariant
                b <= layer@.len(),
                lv == layers_view(layers@),
                iv == input@,
                dim == iv.len(),
                text@.len() > 0,
                k < layers@.len(),
                layer@ == layers@[k as int]@,
                lv[k as int] == layer@,
                scan_input(text@, 0, Seq::empty()) matches Ok(p) && p.0 == iv,
                scan_layers(
                    text@,
                    scan_input(text@, 0, Seq::empty())->Ok_0.1,
                    Seq::empty(),
                    false,
                    Seq::empty(),
                ) == Ok::<Seq<Seq<Block>>, CircuitError>(lv),
                acc == layer_width(layer@.subrange(0, b as int)),
                acc <= dim,
            decreases layer@.len() - b,
        {
            proof {
                assert(layer@.subrange(0, b + 1).drop_last() =~= layer@.subrange(0, b as int));
                assert(layer@.subrange(0, b + 1).last() == layer@[b as int]);
            }
            let w: usize = match layer[b] {
                Block::C => 2,
                Block::S => 2,
                _ => 1,
            };
            if w > dim - acc {
                proof {
                    lemma_width_mono(layer@, b + 1);
                    assert(layer_width(lv[k as int]) != dim as int);
                    assert(!widths_ok(lv, dim as int));
                }
                return Err(CircuitError::DimMismatch);
            }
            acc = acc + w;
            b = b + 1;
        }
        proof {
            assert(layer@.subrange(0, layer@.len() as int) =~= layer@);
        }
        if acc != dim {
            proof {
                assert(layer_width(lv[k as int]) != dim as int);
                assert(!widths_ok(lv, dim as int));
            }
            return Err(CircuitError::DimMismatch);
        }
        k = k + 1;
    }
    let c = Circuit { layers, input };
    proof {
        assert(widths_ok(lv, dim as int));
        assert(c@ == (lv, iv));
    }
    Ok(c)
}

/// The ket literals of the input bits, as text.
pub open spec fn text_bits(bits: Seq<bool>) -> Seq<char>
    decreases bits.len(),
{
    if bits.len() == 0 {
        Seq::empty()
    } else {
        text_bits(bits.drop_last()) + (if bits.last() {
            " |1>"@
        } else {
            " |0>"@
        })
    }
}

/// The Church tuple of the input bits, as text.
pub open spec fn text_input(bits: Seq<bool>) -> Seq<char> {
    "(\\f.f"@ + text_bits(bits) + ") "@
}

/// The wire index pairs the CNOTs of a layer act on, walking the blocks
/// from `k` with `idx` the next free wire.
pub open spec fn cnot_pairs(layer: Seq<Block>, k: int, idx: int) -> Seq<(int, int)>
    decreases layer.len() - k,
{
    if k < 0 || k >= layer.len() {
        Seq::empty()
    } else {
        match layer[k] {
            Block::C => seq![(idx, idx + 1)] + cnot_pairs(layer, k + 1, idx + 2),
            Block::S => cnot_pairs(layer, k + 1, idx + 2),
            _ => cnot_pairs(layer, k + 1, idx + 1),
        }
    }
}

/// The lambda binders that destructure the current tuple, as text.
pub open spec fn text_lams(n: int) -> Seq<char>
    decreases n,
{
    if n <= 0 {
        Seq::empty()
    } else {
        text_lams(n - 1) + "\\x"@ + dec_digits((n - 1) as nat) + "."@
    }
}

/// The CNOT applications of a layer and the continuations that bind their
/// outputs, as text.
pub open spec fn text_chain(pairs: Seq<(int, int)>) -> Seq<char>
    decreases pairs.len(),
{
    if pairs.len() == 0 {
        Seq::empty()
    } else {
        text_chain(pairs.drop_last()) + "(C (pair x"@ + dec_digits(pairs.last().0 as nat) + " x"@
            + dec_digits(pairs.last().1 as nat) + "))"@ + " (\\'x"@ + dec_digits(
            pairs.last().0 as nat,
        ) + ".\\'x"@ + dec_digits(pairs.last().1 as nat) + "."@
    }
}

/// The output tuple of a layer, as text, walking the blocks from `k` with
/// `idx` the next input wire.
pub open spec fn text_outputs(layer: Seq<Block>, k: int, idx: int) -> Seq<char>
    decreases layer.len() - k,
{
    if k < 0 || k >= layer.len() {
        Seq::empty()
    } else {
        match layer[k] {
            Block::I => " ("@ + "x"@ + dec_digits(idx as nat) + ")"@ + text_outputs(
                layer,
                k + 1,
                idx + 1,
            ),
            Block::H => " ("@ + "H "@ + "x"@ + dec_digits(idx as nat) + ")"@ + text_outputs(
                layer,
                k + 1,
                idx + 1,
            ),
            Block::T => " ("@ + "T "@ + "x"@ + dec_digits(idx as nat) + ")"@ + text_outputs(
                layer,
                k + 1,
                idx + 1,
            ),
            Block::C => " ("@ + "'x"@ + dec_digits(idx as nat) + ")"@ + " ('x"@ + dec_digits(
                (idx + 1) as nat,
            ) + ")"@ + text_outputs(layer, k + 1, idx + 2),
            Block::S => " ("@ + "x"@ + dec_digits((idx + 1) as nat) + ")"@ + " (x"@ + dec_digits(
                idx as nat,
            ) + ")"@ + text_outputs(layer, k + 1, idx + 2),
        }
    }
}

/// A run of closing parentheses, as text.
pub open spec fn text_closes(m: int) -> Seq<char>
    decreases m,
{
    if m <= 0 {
        Seq::empty()
    } else {
        text_closes(m - 1) + ")"@
    }
}

/// One compiled layer, as text.
pub open spec fn text_layer(layer: Seq<Block>, nwires: int) -> Seq<char> {
    "("@ + text_lams(nwires) + text_chain(cnot_pairs(layer, 0, 0)) + "\\f.f"@ + text_outputs(
        layer,
        0,
        0,
    ) + text_closes(1 + cnot_pairs(layer, 0, 0).len() as int)
}

/// All compiled layers, as text, each preceded by a separating space.
pub open spec fn text_layers(layers: Seq<Seq<Block>>, nwires: int) -> Seq<char>
    decreases layers.len(),
{
    if layers.len() == 0 {
        Seq::empty()
    } else {
        text_layers(layers.drop_last(), nwires) + " "@ + text_layer(layers.last(), nwires)
    }
}

/// The whole compiled circuit, as text.
pub open spec fn circuit_text(c: (Seq<Seq<Block>>, Seq<bool>)) -> Seq<char> {
    text_input(c.1) + text_layers(c.0, c.1.len() as int)
}

/// A prefix of a layer is no wider than the whole layer.
proof fn lemma_width_mono(s: Seq<Block>, b: int)
    requires
        0 <= b <= s.len(),
    ensures
        layer_width(s.subrange(0, b)) <= layer_width(s),
    decreases s.len() - b,
{
    if b < s.len() {
        lemma_width_mono(s, b + 1);
        assert(s.subrange(0, b + 1).drop_last() =~= s.subrange(0, b));
        assert(s.subrange(0, b + 1).last() == s[b]);
    } else {
        assert(s.subrange(0, s.len() as int) =~= s);
    }
}

/// The characters of a string, in order.
fn string_to_chars(s: &String) -> (v: Vec<char>)
    ensures
        v@ == s@,
{
    let mut v: Vec<char> = Vec::new();
    let n = s.as_str().unicode_len();
    let mut i: usize = 0;
    proof {
        assert(v@ =~= s@.subrange(0, 0));
    }
    while i < n
        invariant
            i <= n,
            n == s@.len(),
            v@ == s@.subrange(0, i as int),
        decreases n - i,
    {
        let c = s.as_str().get_char(i);
        v.push(c);
        proof {
            assert(s@.subrange(0, i + 1) =~= s@.subrange(0, i as int).push(s@[i as int]));
        }
        i = i + 1;
    }
    proof {
        assert(s@.subrange(0, s@.len() as int) =~= s@);
    }
    v
}

impl Circuit {
    /// Compiles the circuit down to an equivalent lambda term: the input
    /// bits become a Church tuple, and each layer becomes a
    /// continuation-passing step that destructures the tuple, applies the
    /// CNOTs first, and rebuilds the next tuple; the emitted text is read
    /// back by the term parser.
    #[verifier::rlimit(100)]
    pub fn to_lambda(&self) -> (res: Result<Term, ParseError>)
        requires
            self.wf(),
        ensures
            match res {
                Ok(t) => spec_parse(circuit_text(self@)) == Ok::<TermX, ParseErrX>(t@),
                Err(e) => spec_parse(circuit_text(self@)) == Err::<TermX, ParseErrX>(e@),
            },
    {
        let ghost lv = self@.0;
        let ghost iv = self@.1;
        let nwires = self.input.len();
        let mut s = String::from_str("(\\f.f");
        let mut bi: usize = 0;
        proof {
            assert(s@ + Seq::<char>::empty() =~= s@);
            assert(iv.subrange(0, 0) =~= Seq::<bool>::empty());
            assert(text_bits(iv.subrange(0, 0)) == Seq::<char>::empty());
        }
        while bi < self.input.len()
            invariant
                bi <= self.input@.len(),
                iv == self.input@,
                s@ == "(\\f.f"@ + text_bits(iv.subrange(0, bi as int)),
            decreases self.input@.len() - bi,
        {
            let ghost pre = s@;
            if self.input[bi] {
                s.append(" |1>");
            } else {
                s.append(" |0>");
            }
            proof {
                assert(iv.subrange(0, bi + 1).drop_last() =~= iv.subrange(0, bi as int));
                assert(iv.subrange(0, bi + 1).last() == iv[bi as int]);
                assert(s@ =~= "(\\f.f"@ + text_bits(iv.subrange(0, bi + 1)));
            }
            bi = bi + 1;
        }
        s.append(") ");
        proof {
            assert(iv.subrange(0, iv.len() as int) =~= iv);
            assert(s@ =~= text_input(iv));
            assert(lv.subrange(0, 0) =~= Seq::<Seq<Block>>::empty());
            assert(s@ + Seq::<char>::empty() =~= s@);
        }
        // compile each layer
        let mut li: usize = 0;
        while li < self.layers.len()
            invariant
                li <= self.layers@.len(),
                lv == layers_view(self.layers@),
                iv == self.input@,
                nwires == iv.len(),
                widths_ok(lv, nwires as int),
                s@ == text_input(iv) + text_layers(lv.subrange(0, li as int), nwires as int),
            decreases self.layers@.len() - li,
        {
            let layer = &self.layers[li];
            proof {
                assert(lv[li as int] == self.layers@[li as int]@);
                assert(layer_width(layer@) == nwires as int);
            }
            s.append(" ");
            s.append("(");
            let ghost lbase = text_input(iv) + text_layers(lv.subrange(0, li as int), nwires as int)
                + " "@;
            proof {
                assert(s@ =~= lbase + "("@);
                assert(text_lams(0) == Seq::<char>::empty());
                assert(s@ + Seq::<char>::empty() =~= s@);
            }
            // the binders that destructure the current tuple
            let mut w: usize = 0;
            while w < nwires
                invariant
                    w <= nwires,
                    s@ == lbase + "("@ + text_lams(w as int),
                decreases nwires - w,
            {
                let ghost pre = s@;
                s.append("\\x");
                s.append(fmt_nat(w).as_str());
                s.append(".");
                proof {
                    assert(s@ =~= lbase + "("@ + text_lams(w + 1));
                }
                w = w + 1;
            }
            // gather the CNOT wire pairs
            let mut cnots: Vec<(usize, usize)> = Vec::new();
            let mut idx: usize = 0;
            let mut k: usize = 0;
            proof {
                assert(pairs_view(cnots@) =~= Seq::<(int, int)>::empty());
                assert(Seq::<(int, int)>::empty() + cnot_pairs(layer@, 0, 0) =~= cnot_pairs(
                    layer@,
                    0,
                    0,
                ));
                assert(layer@.subrange(0, 0) =~= Seq::<Block>::empty());
            }
            while k < layer.len()
                invariant
                    k <= layer@.len(),
                    layer@ == self.layers@[li as int]@,
                    layer_width(layer@) == nwires as int,
                    nwires == iv.len(),
                    idx == layer_width(layer@.subrange(0, k as int)),
                    idx <= nwires,
                    cnot_pairs(layer@, 0, 0) == pairs_view(cnots@) + cnot_pairs(
                        layer@,
                        k as int,
                        idx as int,
                    ),
                decreases layer@.len() - k,
            {
                proof {
                    assert(layer@.subrange(0, k + 1).drop_last() =~= layer@.subrange(0, k as int));
                    assert(layer@.subrange(0, k + 1).last() == layer@[k as int]);
                    lemma_width_mono(layer@, k + 1);
                }
                let ghost pv = pairs_view(cnots@);
                match layer[k] {
                    Block::C => {
                        cnots.push((idx, idx + 1));
                        proof {
                            assert(pairs_view(cnots@) =~= pv.push((idx as int, idx as int + 1)));
                            assert(pv + (seq![(idx as int, idx as int + 1)] + cnot_pairs(
                                layer@,
                                k + 1,
                                idx as int + 2,
                            )) =~= pv.push((idx as int, idx as int + 1)) + cnot_pairs(
                                layer@,
                                k + 1,
                                idx as int + 2,
                            ));
                        }
                        idx = idx + 2;
                    },
                    Block::S => {
                        idx = idx + 2;
                    },
                    _ => {
                        idx = idx + 1;
                    },
                }
                k = k + 1;
            }
            proof {
                assert(layer@.subrange(0, layer@.len() as int) =~= layer@);
                assert(cnot_pairs(layer@, layer@.len() as int, idx as int) =~= Seq::<
                    (int, int),
                >::empty());
                assert(pairs_view(cnots@) + Seq::<(int, int)>::empty() =~= pairs_view(cnots@));
                assert(cnot_pairs(layer@, 0, 0) == pairs_view(cnots@));
            }
            let ghost pv = pairs_view(cnots@);
            // the CNOT chain
            let ghost cbase = lbase + "("@ + text_lams(nwires as int);
            let mut ci: usize = 0;
            proof {
                assert(pv.subrange(0, 0) =~= Seq::<(int, int)>::empty());
                assert(s@ + Seq::<char>::empty() =~= s@);
            }
            while ci < cnots.len()
                invariant
                    ci <= cnots@.len(),
                    pv == pairs_view(cnots@),
                    s@ == cbase + text_chain(pv.subrange(0, ci as int)),
                decreases cnots@.len() - ci,
            {
                let q1 = cnots[ci].0;
                let q2 = cnots[ci].1;
                proof {
                    assert(pv[ci as int] == (q1 as int, q2 as int));
                }
                s.append("(C (pair x");
                s.append(fmt_nat(q1).as_str());
                s.append(" x");
                s.append(fmt_nat(q2).as_str());
                s.append("))");
                s.append(" (\\'x");
                s.append(fmt_nat(q1).as_str());
                s.append(".\\'x");
                s.append(fmt_nat(q2).as_str());
                s.append(".");
                proof {
                    assert(pv.subrange(0, ci + 1).drop_last() =~= pv.subrange(0, ci as int));
                    assert(pv.subrange(0, ci + 1).last() == pv[ci as int]);
                    assert(s@ =~= cbase + text_chain(pv.subrange(0, ci + 1)));
                }
                ci = ci + 1;
            }
            s.append("\\f.f");
            let ghost obase = cbase + text_chain(pv) + "\\f.f"@;
            proof {
                assert(pv.subrange(0, pv.len() as int) =~= pv);
                assert(s@ =~= obase);
                assert(s@ + Seq::<char>::empty() =~= s@);
            }
            // the output tuple
            let mut idx2: usize = 0;
            let mut k2: usize = 0;
            let ghost mut outpre: Seq<char> = Seq::empty();
            proof {
                assert(layer@.subrange(0, 0) =~= Seq::<Block>::empty());
                assert(outpre + text_outputs(layer@, 0, 0) =~= text_outputs(layer@, 0, 0));
            }
            while k2 < layer.len()
                invariant
                    k2 <= layer@.len(),
                    layer@ == self.layers@[li as int]@,
                    layer_width(layer@) == nwires as int,
                    nwires == iv.len(),
                    idx2 == layer_width(layer@.subrange(0, k2 as int)),
                    idx2 <= nwires,
                    s@ == obase + outpre,
                    text_outputs(layer@, 0, 0) == outpre + text_outputs(
                        layer@,
                        k2 as int,
                        idx2 as int,
                    ),
                decreases layer@.len() - k2,
            {
                let ghost pre_out = outpre;
                let ghost pre_idx = idx2 as int;
                proof {
                    assert(layer@.subrange(0, k2 + 1).drop_last() =~= layer@.subrange(
                        0,
                        k2 as int,
                    ));
                    assert(layer@.subrange(0, k2 + 1).last() == layer@[k2 as int]);
                    lemma_width_mono(layer@, k2 + 1);
                }
                match layer[k2] {
                    Block::I => {
                        s.append(" (");
                        s.append("x");
                        s.append(fmt_nat(idx2).as_str());
                        s.append(")");
                        proof {
                            outpre = pre_out + (" ("@ + "x"@ + dec_digits(pre_idx as nat) + ")"@);
                        }
                        idx2 = idx2 + 1;
                    },
                    Block::H => {
                        s.append(" (");
                        s.append("H ");
                        s.append("x");
                        s.append(fmt_nat(idx2).as_str());
                        s.append(")");
                        proof {
                            outpre = pre_out + (" ("@ + "H "@ + "x"@ + dec_digits(pre_idx as nat)
                                + ")"@);
                        }
                        idx2 = idx2 + 1;
                    },
                    Block::T => {
                        s.append(" (");
                        s.append("T ");
                        s.append("x");
                        s.append(fmt_nat(idx2).as_str());
                        s.append(")");
                        proof {
                            outpre = pre_out + (" ("@ + "T "@ + "x"@ + dec_digits(pre_idx as nat)
                                + ")"@);
                        }
                        idx2 = idx2 + 1;
                    },
                    Block::C => {
                        s.append(" (");
                        s.append("'x");
                        s.append(fmt_nat(idx2).as_str());
                        s.append(")");
                        s.append(" ('x");
                        s.append(fmt_nat(idx2 + 1).as_str());
                        s.append(")");
                        proof {
                            outpre = pre_out + (" ("@ + "'x"@ + dec_digits(pre_idx as nat) + ")"@
                                + " ('x"@ + dec_digits((pre_idx + 1) as nat) + ")"@);
                        }
                        idx2 = idx2 + 2;
                    },
                    Block::S => {
                        s.append(" (");
                        s.append("x");
                        s.append(fmt_nat(idx2 + 1).as_str());
                        s.append(")");
                        s.append(" (x");
                        s.append(fmt_nat(idx2).as_str());
                        s.append(")");
                        proof {
                            outpre = pre_out + (" ("@ + "x"@ + dec_digits((pre_idx + 1) as nat)
                                + ")"@ + " (x"@ + dec_digits(pre_idx as nat) + ")"@);
                        }
                        idx2 = idx2 + 2;
                    },
                }
                proof {
                    assert(s@ =~= obase + outpre);
                    assert(text_outputs(layer@, 0, 0) =~= outpre + text_outputs(
                        layer@,
                        k2 + 1,
                        idx2 as int,
                    ));
                }
                k2 = k2 + 1;
            }
            proof {
                assert(layer@.subrange(0, layer@.len() as int) =~= layer@);
                assert(text_outputs(layer@, layer@.len() as int, idx2 as int) =~= Seq::<
                    char,
                >::empty());
                assert(outpre + Seq::<char>::empty() =~= outpre);
                assert(s@ =~= obase + text_outputs(layer@, 0, 0));
            }
            // close the layer and the CNOT continuations
            let ghost zbase = obase + text_outputs(layer@, 0, 0);
            s.append(")");
            let mut m: usize = 0;
            let closes = cnots.len();
            proof {
                assert(text_closes(0) == Seq::<char>::empty());
                assert(s@ =~= zbase + text_closes(1));
            }
            while m < closes
                invariant
                    m <= closes,
                    closes == pv.len(),
                    s@ == zbase + text_closes(1 + m as int),
                decreases closes - m,
            {
                s.append(")");
                proof {
                    assert(s@ =~= zbase + text_closes(1 + m + 1));
                }
                m = m + 1;
            }
            proof {
                assert(lv.subrange(0, li + 1).drop_last() =~= lv.subrange(0, li as int));
                assert(lv.subrange(0, li + 1).last() == lv[li as int]);
                assert(s@ =~= text_input(iv) + text_layers(
                    lv.subrange(0, li + 1),
                    nwires as int,
                ));
            }
            li = li + 1;
        }
        proof {
            assert(lv.subrange(0, lv.len() as int) =~= lv);
            assert(s@ =~= circuit_text(self@));
        }
        let chars = string_to_chars(&s);
        parse(&chars)
    }
}

/// The model of a wire-pair list.
pub open spec fn pairs_view(v: Seq<(usize, usize)>) -> Seq<(int, int)> {
    Seq::new(v.len(), |i: int| (v[i].0 as int, v[i].1 as int))
}

} // verus!
