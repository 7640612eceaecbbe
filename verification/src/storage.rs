//! The text format of a saved model.
//!
//! ```text
//! BEGIN:LAYER
//! <rows> <cols> <entries, column after column>      bias
//! <rows> <cols> <entries, column after column>      weights
//! <activation name>
//! END:LAYER
//! ...                                               one block per layer
//! OPTIMIZER:<optimizer name>
//! ```
//!
//! This module frames the text and checks the frame. An entry is carried as
//! the bytes that stand between two spaces, and is checked to spell a number
//! (see [`crate::numeral`]); which number it spells is for the caller to say.

use crate::activation::ActivationType;
use crate::numeral::{is_float, is_float_literal, lemma_float_is_plain};
use crate::optimizers::OptimizerType;
use crate::text::{
    contains, decimal, find, has_byte, join, lemma_number_round_trip, lemma_split_concat,
    lemma_split_join, lemma_split_plain, lines, number, occurs_at, parse_number, push_bytes,
    push_decimal, push_joined, split, split_bytes, split_lines, strip_return, views, NEWLINE,
    RETURN, SPACE,
};
use vstd::prelude::*;
use vstd::string::StringSliceAdditionalSpecFns;

verus! {

/// The number of bytes in `OPTIMIZER:`; the optimizer's name starts behind
/// them.
pub const PREFIX_LEN: usize = 10;

/// Why a text is no saved model.
#[derive(Clone, Copy, Debug, PartialEq, Eq, Structural)]
pub enum ParseError {
    /// The text ends inside a layer.
    Truncated,
    /// A matrix line lacks its two counts, does not hold one entry per cell,
    /// or holds an entry that spells no number.
    MalformedMatrix,
    /// The name of a layer's activation is none of the known ones.
    UnknownActivation,
    /// A layer is not closed by its end marker.
    UnclosedLayer,
}

/// One matrix as it is saved: its shape and its entries, column after column.
#[derive(Debug)]
pub struct MatrixRecord {
    pub rows: usize,
    pub cols: usize,
    pub entries: Vec<Vec<u8>>,
}

/// One layer as it is saved.
#[derive(Debug)]
pub struct LayerRecord {
    pub bias: MatrixRecord,
    pub weights: MatrixRecord,
    pub activation: ActivationType,
}

/// A model as it is saved: its layers from the input on, and the kind of its
/// optimizer. What the optimizer has accumulated is not saved.
#[derive(Debug)]
pub struct ModelRecord {
    pub layers: Vec<LayerRecord>,
    pub optimizer: OptimizerType,
}

/// What a `MatrixRecord` holds.
pub struct MatrixText {
    pub rows: usize,
    pub cols: usize,
    pub entries: Seq<Seq<u8>>,
}

/// What a `LayerRecord` holds.
pub struct LayerText {
    pub bias: MatrixText,
    pub weights: MatrixText,
    pub activation: ActivationType,
}

/// What a `ModelRecord` holds.
pub struct ModelText {
    pub layers: Seq<LayerText>,
    pub optimizer: OptimizerType,
}

impl View for MatrixRecord {
    type V = MatrixText;

    open spec fn view(&self) -> MatrixText {
        MatrixText { rows: self.rows, cols: self.cols, entries: views(self.entries@) }
    }
}

impl View for LayerRecord {
    type V = LayerText;

    open spec fn view(&self) -> LayerText {
        LayerText { bias: self.bias@, weights: self.weights@, activation: self.activation }
    }
}

impl View for ModelRecord {
    type V = ModelText;

    open spec fn view(&self) -> ModelText {
        ModelText {
            layers: Seq::new(self.layers@.len(), |i: int| self.layers@[i]@),
            optimizer: self.optimizer,
        }
    }
}

/// The marker that opens a layer.
pub open spec fn begin_marker() -> Seq<u8> {
    "BEGIN:LAYER".spec_bytes()
}

/// The marker that closes a layer.
pub open spec fn end_marker() -> Seq<u8> {
    "END:LAYER".spec_bytes()
}

/// The marker in front of the optimizer's name.
pub open spec fn optimizer_marker() -> Seq<u8> {
    "OPTIMIZER:".spec_bytes()
}

/// The line of a matrix: the two counts and the entries, a space after each
/// but the last entry.
pub open spec fn matrix_line(m: MatrixText) -> Seq<u8> {
    decimal(m.rows as nat) + seq![SPACE] + decimal(m.cols as nat) + seq![SPACE] + join(
        m.entries,
        SPACE,
    )
}

/// The five lines of a layer, each closed by a line feed.
pub open spec fn layer_block(l: LayerText) -> Seq<u8> {
    begin_marker() + seq![NEWLINE] + matrix_line(l.bias) + seq![NEWLINE] + matrix_line(l.weights)
        + seq![NEWLINE] + l.activation.name() + seq![NEWLINE] + end_marker() + seq![NEWLINE]
}

/// The blocks of the layers, one after another.
pub open spec fn layer_blocks(layers: Seq<LayerText>) -> Seq<u8>
    decreases layers.len(),
{
    if layers.len() == 0 {
        Seq::<u8>::empty()
    } else {
        layer_blocks(layers.drop_last()) + layer_block(layers.last())
    }
}

/// The last line: the marker and the optimizer's name, with no line feed
/// behind it.
pub open spec fn trailer(optimizer: OptimizerType) -> Seq<u8> {
    optimizer_marker() + optimizer.name()
}

/// The text of a model.
pub open spec fn model_text(m: ModelText) -> Seq<u8> {
    layer_blocks(m.layers) + trailer(m.optimizer)
}

/// Whether every entry spells a number.
pub open spec fn all_floats(entries: Seq<Seq<u8>>) -> bool {
    forall|i: int| 0 <= i < entries.len() ==> is_float(#[trigger] entries[i])
}

/// The matrix that a line spells: the pieces between its spaces are two
/// counts and then exactly one entry per cell, each the spelling of a
/// number.
pub open spec fn parsed_matrix(line: Seq<u8>) -> Option<MatrixText> {
    let tokens: Seq<Seq<u8>> = split(line, SPACE);
    if tokens.len() < 2 {
        None
    } else {
        match (number(tokens[0]), number(tokens[1])) {
            (Some(rows), Some(cols)) => {
                if tokens.len() - 2 == rows * cols && all_floats(tokens.skip(2)) {
                    Some(MatrixText { rows, cols, entries: tokens.skip(2) })
                } else {
                    None
                }
            },
            _ => None,
        }
    }
}

/// The layer spelled by the four lines behind an opening marker that stands
/// at line `at`.
pub open spec fn parsed_layer(all: Seq<Seq<u8>>, at: int) -> Result<LayerText, ParseError> {
    if at + 1 >= all.len() {
        Err(ParseError::Truncated)
    } else {
        match parsed_matrix(all[at + 1]) {
            None => Err(ParseError::MalformedMatrix),
            Some(bias) => {
                if at + 2 >= all.len() {
                    Err(ParseError::Truncated)
                } else {
                    match parsed_matrix(all[at + 2]) {
                        None => Err(ParseError::MalformedMatrix),
                        Some(weights) => {
                            if at + 3 >= all.len() {
                                Err(ParseError::Truncated)
                            } else {
                                match ActivationType::named(all[at + 3]) {
                                    None => Err(ParseError::UnknownActivation),
                                    Some(activation) => {
                                        if at + 4 >= all.len() {
                                            Err(ParseError::Truncated)
                                        } else if !contains(all[at + 4], end_marker()) {
                                            Err(ParseError::UnclosedLayer)
                                        } else {
                                            Ok(LayerText { bias, weights, activation })
                                        }
                                    },
                                }
                            }
                        },
                    }
                }
            },
        }
    }
}

/// The model spelled by the lines from `at` on, given the layers and the
/// optimizer read before. A line that holds the opening marker starts a
/// layer of five lines. A line that holds the optimizer marker names the
/// optimizer behind its first ten bytes; the last such line counts. Every
/// other line is passed over.
pub open spec fn parsed_from(
    all: Seq<Seq<u8>>,
    at: int,
    layers: Seq<LayerText>,
    optimizer: OptimizerType,
) -> Result<ModelText, ParseError>
    decreases all.len() - at,
{
    if at < 0 || at >= all.len() {
        Ok(ModelText { layers, optimizer })
    } else if contains(all[at], begin_marker()) {
        match parsed_layer(all, at) {
            Err(e) => Err(e),
            Ok(layer) => parsed_from(all, at + 5, layers.push(layer), optimizer),
        }
    } else if contains(all[at], optimizer_marker()) {
        parsed_from(all, at + 1, layers, OptimizerType::named(all[at].skip(PREFIX_LEN as int)))
    } else {
        parsed_from(all, at + 1, layers, optimizer)
    }
}

/// The model that a text spells, or why it spells none. Without an optimizer
/// line the optimizer is plain gradient descent.
pub open spec fn parsed_model(text: Seq<u8>) -> Result<ModelText, ParseError> {
    parsed_from(lines(text), 0, Seq::<LayerText>::empty(), OptimizerType::Default)
}

/// Writes a matrix line.
pub fn matrix_to_string(m: &MatrixRecord) -> (line: Vec<u8>)
    ensures
        line@ == matrix_line(m@),
{
    let mut line: Vec<u8> = Vec::new();
    push_decimal(m.rows, &mut line);
    line.push(SPACE);
    push_decimal(m.cols, &mut line);
    line.push(SPACE);
    push_joined(&m.entries, SPACE, &mut line);
    assert(line@ =~= matrix_line(m@));
    line
}

/// Reads a matrix line: `Some` exactly when the pieces between the spaces
/// are two counts and then one entry per cell, each the spelling of a number.
pub fn matrix_from_string(line: &[u8]) -> (r: Option<MatrixRecord>)
    ensures
        match r {
            Some(m) => parsed_matrix(line@) == Some(m@),
            None => parsed_matrix(line@) is None,
        },
{
    let mut tokens: Vec<Vec<u8>> = split_bytes(line, SPACE);
    let ghost all: Seq<Seq<u8>> = split(line@, SPACE);
    if tokens.len() < 2 {
        return None;
    }
    assert(views(tokens@)[0] == tokens[0]@);
    assert(views(tokens@)[1] == tokens[1]@);
    let rows: usize = match parse_number(tokens[0].as_slice()) {
        Some(n) => n,
        None => {
            return None;
        },
    };
    let cols: usize = match parse_number(tokens[1].as_slice()) {
        Some(n) => n,
        None => {
            return None;
        },
    };
    let count: usize = tokens.len() - 2;
    match rows.checked_mul(cols) {
        Some(cells) => {
            if cells != count {
                return None;
            }
        },
        None => {
            return None;
        },
    }
    let entries: Vec<Vec<u8>> = tokens.split_off(2);
    assert(views(entries@) =~= all.skip(2));
    let mut i: usize = 0;
    while i < entries.len()
        invariant
            i <= entries.len(),
            all == split(line@, SPACE),
            all.len() >= 2,
            number(all[0]) == Some(rows),
            number(all[1]) == Some(cols),
            all.len() - 2 == rows * cols,
            views(entries@) == all.skip(2),
            forall|k: int| 0 <= k < i ==> is_float(#[trigger] views(entries@)[k]),
        decreases entries.len() - i,
    {
        assert(views(entries@)[i as int] == entries[i as int]@);
        if !is_float_literal(entries[i].as_slice()) {
            return None;
        }
        i = i + 1;
    }
    Some(MatrixRecord { rows, cols, entries })
}

/// Writes the block of one layer behind what `out` holds.
fn push_layer(layer: &LayerRecord, out: &mut Vec<u8>)
    ensures
        final(out)@ == old(out)@ + layer_block(layer@),
{
    let ghost start: Seq<u8> = out@;
    push_bytes("BEGIN:LAYER".as_bytes(), out);
    out.push(NEWLINE);
    let ghost opened: Seq<u8> = out@;
    assert(opened =~= start + (begin_marker() + seq![NEWLINE]));
    let bias: Vec<u8> = matrix_to_string(&layer.bias);
    push_bytes(bias.as_slice(), out);
    out.push(NEWLINE);
    let ghost with_bias: Seq<u8> = out@;
    assert(with_bias =~= start + (begin_marker() + seq![NEWLINE] + matrix_line(layer@.bias)
        + seq![NEWLINE]));
    let weights: Vec<u8> = matrix_to_string(&layer.weights);
    push_bytes(weights.as_slice(), out);
    out.push(NEWLINE);
    let ghost with_weights: Seq<u8> = out@;
    assert(with_weights =~= start + (begin_marker() + seq![NEWLINE] + matrix_line(layer@.bias)
        + seq![NEWLINE] + matrix_line(layer@.weights) + seq![NEWLINE]));
    push_bytes(layer.activation.tag().as_bytes(), out);
    out.push(NEWLINE);
    let ghost with_name: Seq<u8> = out@;
    assert(with_name =~= start + (begin_marker() + seq![NEWLINE] + matrix_line(layer@.bias)
        + seq![NEWLINE] + matrix_line(layer@.weights) + seq![NEWLINE] + layer@.activation.name()
        + seq![NEWLINE]));
    push_bytes("END:LAYER".as_bytes(), out);
    out.push(NEWLINE);
    assert(out@ =~= start + layer_block(layer@));
}

/// Writes a model: a block of five lines per layer, then the optimizer line.
pub fn nn_to_string(model: &ModelRecord) -> (text: Vec<u8>)
    ensures
        text@ == model_text(model@),
{
    let mut text: Vec<u8> = Vec::new();
    let mut i: usize = 0;
    let ghost layers: Seq<LayerText> = model@.layers;
    assert(layers.take(0) =~= Seq::<LayerText>::empty());
    while i < model.layers.len()
        invariant
            i <= model.layers.len(),
            layers == model@.layers,
            text@ == layer_blocks(layers.take(i as int)),
        decreases model.layers.len() - i,
    {
        push_layer(&model.layers[i], &mut text);
        i = i + 1;
        proof {
            let now: Seq<LayerText> = layers.take(i as int);
            assert(now.drop_last() =~= layers.take(i - 1));
            assert(now.last() == model.layers[i - 1]@);
        }
    }
    assert(layers.take(model.layers.len() as int) =~= layers);
    let ghost blocks: Seq<u8> = text@;
    push_bytes("OPTIMIZER:".as_bytes(), &mut text);
    push_bytes(model.optimizer.tag().as_bytes(), &mut text);
    assert(text@ =~= blocks + (optimizer_marker() + model.optimizer.name()));
    text
}

/// Reads the four lines behind an opening marker at line `at`.
fn layer_from_lines(all: &Vec<Vec<u8>>, at: usize) -> (r: Result<LayerRecord, ParseError>)
    requires
        at < all.len(),
    ensures
        match r {
            Ok(layer) => parsed_layer(views(all@), at as int) == Ok::<LayerText, ParseError>(
                layer@,
            ),
            Err(e) => parsed_layer(views(all@), at as int) == Err::<LayerText, ParseError>(e),
        },
{
    let n: usize = all.len();
    if n - at <= 1 {
        return Err(ParseError::Truncated);
    }
    let bias: MatrixRecord = match matrix_from_string(all[at + 1].as_slice()) {
        Some(m) => m,
        None => {
            return Err(ParseError::MalformedMatrix);
        },
    };
    if n - at <= 2 {
        return Err(ParseError::Truncated);
    }
    let weights: MatrixRecord = match matrix_from_string(all[at + 2].as_slice()) {
        Some(m) => m,
        None => {
            return Err(ParseError::MalformedMatrix);
        },
    };
    if n - at <= 3 {
        return Err(ParseError::Truncated);
    }
    let activation: ActivationType = match ActivationType::from_bytes(all[at + 3].as_slice()) {
        Some(a) => a,
        None => {
            return Err(ParseError::UnknownActivation);
        },
    };
    if n - at <= 4 {
        return Err(ParseError::Truncated);
    }
    if !find(all[at + 4].as_slice(), "END:LAYER".as_bytes()) {
        return Err(ParseError::UnclosedLayer);
    }
    Ok(LayerRecord { bias, weights, activation })
}

/// What stands behind the first `PREFIX_LEN` bytes of a line.
fn behind_prefix(line: &Vec<u8>) -> (rest: Vec<u8>)
    requires
        line.len() >= PREFIX_LEN,
    ensures
        rest@ == line@.skip(PREFIX_LEN as int),
{
    let mut rest: Vec<u8> = Vec::new();
    let mut i: usize = PREFIX_LEN;
    assert(rest@ =~= line@.subrange(PREFIX_LEN as int, i as int));
    while i < line.len()
        invariant
            PREFIX_LEN <= i <= line.len(),
            rest@ == line@.subrange(PREFIX_LEN as int, i as int),
        decreases line.len() - i,
    {
        rest.push(line[i]);
        i = i + 1;
        assert(rest@ =~= line@.subrange(PREFIX_LEN as int, i as int));
    }
    assert(rest@ =~= line@.skip(PREFIX_LEN as int));
    rest
}

/// The bytes of the three markers, written out.
pub proof fn lemma_markers()
    ensures
        begin_marker() == seq![66u8, 69, 71, 73, 78, 58, 76, 65, 89, 69, 82],
        end_marker() == seq![69u8, 78, 68, 58, 76, 65, 89, 69, 82],
        optimizer_marker() == seq![79u8, 80, 84, 73, 77, 73, 90, 69, 82, 58],
        optimizer_marker().len() == PREFIX_LEN,
{
    reveal_strlit("BEGIN:LAYER");
    reveal_strlit("END:LAYER");
    reveal_strlit("OPTIMIZER:");
    vstd::string::is_ascii_spec_bytes("BEGIN:LAYER");
    vstd::string::is_ascii_spec_bytes("END:LAYER");
    vstd::string::is_ascii_spec_bytes("OPTIMIZER:");
    assert("BEGIN:LAYER"@ =~= seq!['B', 'E', 'G', 'I', 'N', ':', 'L', 'A', 'Y', 'E', 'R']);
    assert("END:LAYER"@ =~= seq!['E', 'N', 'D', ':', 'L', 'A', 'Y', 'E', 'R']);
    assert("OPTIMIZER:"@ =~= seq!['O', 'P', 'T', 'I', 'M', 'I', 'Z', 'E', 'R', ':']);
    assert(vstd::string::is_ascii("BEGIN:LAYER"));
    assert(vstd::string::is_ascii("END:LAYER"));
    assert(vstd::string::is_ascii("OPTIMIZER:"));
    assert("BEGIN:LAYER".spec_bytes() =~= seq![66u8, 69, 71, 73, 78, 58, 76, 65, 89, 69, 82]);
    assert("END:LAYER".spec_bytes() =~= seq![69u8, 78, 68, 58, 76, 65, 89, 69, 82]);
    assert("OPTIMIZER:".spec_bytes() =~= seq![79u8, 80, 84, 73, 77, 73, 90, 69, 82, 58]);
}

/// Reads a model from its text. The result is exactly what `parsed_model`
/// says of the text: the model it spells, or the first reason why it spells
/// none.
pub fn nn_from_string(text: &[u8]) -> (r: Result<ModelRecord, ParseError>)
    ensures
        match r {
            Ok(model) => parsed_model(text@) == Ok::<ModelText, ParseError>(model@),
            Err(e) => parsed_model(text@) == Err::<ModelText, ParseError>(e),
        },
{
    let all: Vec<Vec<u8>> = split_lines(text);
    let mut layers: Vec<LayerRecord> = Vec::new();
    let mut optimizer: OptimizerType = OptimizerType::Default;
    let mut at: usize = 0;
    let ghost every: Seq<Seq<u8>> = views(all@);
    assert(Seq::new(layers@.len(), |i: int| layers@[i]@) =~= Seq::<LayerText>::empty());
    while at < all.len()
        invariant
            at <= all.len(),
            every == views(all@),
            every == lines(text@),
            parsed_model(text@) == parsed_from(
                every,
                at as int,
                Seq::new(layers@.len(), |i: int| layers@[i]@),
                optimizer,
            ),
        decreases all.len() - at,
    {
        let ghost so_far: Seq<LayerText> = Seq::new(layers@.len(), |i: int| layers@[i]@);
        assert(every[at as int] == all[at as int]@);
        if find(all[at].as_slice(), "BEGIN:LAYER".as_bytes()) {
            match layer_from_lines(&all, at) {
                Ok(layer) => {
                    let ghost held: LayerText = layer@;
                    layers.push(layer);
                    assert(Seq::new(layers@.len(), |i: int| layers@[i]@) =~= so_far.push(held));
                    at = at + 5;
                },
                Err(e) => {
                    return Err(e);
                },
            }
        } else if find(all[at].as_slice(), "OPTIMIZER:".as_bytes()) {
            proof {
                lemma_markers();
                let k: int = choose|k: int| occurs_at(all[at as int]@, optimizer_marker(), k);
                assert(k + optimizer_marker().len() <= all[at as int]@.len());
            }
            let rest: Vec<u8> = behind_prefix(&all[at]);
            optimizer = OptimizerType::from_bytes(rest.as_slice());
            at = at + 1;
        } else {
            at = at + 1;
        }
    }
    Ok(ModelRecord { layers, optimizer })
}

/// Whether a matrix is read back from its own line: it has at least one
/// cell, and one entry per cell that spells a number.
pub open spec fn writable_matrix(m: MatrixText) -> bool {
    &&& m.entries.len() >= 1
    &&& m.entries.len() == m.rows * m.cols
    &&& all_floats(m.entries)
}

/// Whether every matrix of a model is read back from its own line.
pub open spec fn writable_model(m: ModelText) -> bool {
    forall|i: int|
        0 <= i < m.layers.len() ==> writable_matrix((#[trigger] m.layers[i]).bias)
            && writable_matrix(m.layers[i].weights)
}

/// The five lines of a layer.
pub open spec fn layer_lines(l: LayerText) -> Seq<Seq<u8>> {
    seq![
        begin_marker(),
        matrix_line(l.bias),
        matrix_line(l.weights),
        l.activation.name(),
        end_marker(),
    ]
}

/// The lines of all layers, in order.
pub open spec fn all_layer_lines(layers: Seq<LayerText>) -> Seq<Seq<u8>>
    decreases layers.len(),
{
    if layers.len() == 0 {
        Seq::<Seq<u8>>::empty()
    } else {
        all_layer_lines(layers.drop_last()) + layer_lines(layers.last())
    }
}

/// The text made of the given lines, a line feed behind each.
pub open spec fn closed_lines(ls: Seq<Seq<u8>>) -> Seq<u8>
    decreases ls.len(),
{
    if ls.len() == 0 {
        Seq::<u8>::empty()
    } else {
        closed_lines(ls.drop_last()) + ls.last() + seq![NEWLINE]
    }
}

/// Whether a line comes back from a text as it went in: it holds no line
/// feed and does not end in a carriage return.
pub open spec fn whole_line(line: Seq<u8>) -> bool {
    !has_byte(line, NEWLINE) && (line.len() > 0 ==> line.last() != RETURN)
}

/// A text holds itself.
proof fn lemma_contains_prefix(a: Seq<u8>, b: Seq<u8>)
    ensures
        contains(a + b, a),
{
    assert((a + b).subrange(0, a.len() as int) =~= a);
    assert(occurs_at(a + b, a, 0));
}

/// Joining two runs of pieces is joining each and putting a separator
/// between.
proof fn lemma_join_concat(p: Seq<Seq<u8>>, q: Seq<Seq<u8>>, sep: u8)
    requires
        p.len() >= 1,
        q.len() >= 1,
    ensures
        join(p + q, sep) == join(p, sep) + seq![sep] + join(q, sep),
    decreases q.len(),
{
    let whole: Seq<Seq<u8>> = p + q;
    assert(whole.last() == q.last());
    if q.len() == 1 {
        assert(whole.drop_last() =~= p);
        assert(join(q, sep) == q[0]);
    } else {
        assert(whole.drop_last() =~= p + q.drop_last());
        lemma_join_concat(p, q.drop_last(), sep);
        assert(join(whole, sep) =~= join(p, sep) + seq![sep] + join(q, sep));
    }
}

/// A byte of a join is the separator or a byte of one of the pieces.
proof fn lemma_join_bytes(parts: Seq<Seq<u8>>, sep: u8, b: u8)
    requires
        b != sep,
        forall|i: int| 0 <= i < parts.len() ==> !has_byte(#[trigger] parts[i], b),
    ensures
        !has_byte(join(parts, sep), b),
    decreases parts.len(),
{
    if parts.len() >= 2 {
        let front: Seq<Seq<u8>> = parts.drop_last();
        assert forall|i: int| 0 <= i < front.len() implies !has_byte(#[trigger] front[i], b) by {
            assert(front[i] == parts[i]);
        }
        lemma_join_bytes(front, sep, b);
        let whole: Seq<u8> = join(parts, sep);
        let head: Seq<u8> = join(front, sep);
        assert(!has_byte(parts.last(), b));
        if has_byte(whole, b) {
            let w: int = choose|w: int| 0 <= w < whole.len() && whole[w] == b;
            if w < head.len() {
                assert(head[w] == b);
            } else if w > head.len() {
                assert(parts.last()[w - head.len() - 1] == b);
            }
        }
    } else if parts.len() == 1 {
        assert(!has_byte(parts[0], b));
    }
}

/// The two counts and the entries of a matrix, as the pieces of its line.
pub open spec fn line_parts(m: MatrixText) -> Seq<Seq<u8>> {
    seq![decimal(m.rows as nat), decimal(m.cols as nat)] + m.entries
}

/// The line of a matrix with at least one cell is its pieces joined by
/// spaces.
proof fn lemma_line_is_join(m: MatrixText)
    requires
        m.entries.len() >= 1,
    ensures
        matrix_line(m) == join(line_parts(m), SPACE),
{
    let head: Seq<Seq<u8>> = seq![decimal(m.rows as nat), decimal(m.cols as nat)];
    lemma_join_concat(head, m.entries, SPACE);
    assert(head.drop_last() =~= seq![decimal(m.rows as nat)]);
    assert(join(head.drop_last(), SPACE) == decimal(m.rows as nat));
    assert(join(head, SPACE) =~= decimal(m.rows as nat) + seq![SPACE] + decimal(m.cols as nat));
    assert(join(line_parts(m), SPACE) =~= matrix_line(m));
}

/// No piece of the line of a writable matrix holds a space, a line feed or a
/// carriage return.
proof fn lemma_parts_plain(m: MatrixText)
    requires
        all_floats(m.entries),
    ensures
        forall|i: int|
            0 <= i < line_parts(m).len() ==> !has_byte(#[trigger] line_parts(m)[i], SPACE),
        forall|i: int|
            0 <= i < line_parts(m).len() ==> !has_byte(#[trigger] line_parts(m)[i], NEWLINE),
        forall|i: int|
            0 <= i < line_parts(m).len() ==> !has_byte(#[trigger] line_parts(m)[i], RETURN),
{
    let parts: Seq<Seq<u8>> = line_parts(m);
    lemma_number_round_trip(m.rows);
    lemma_number_round_trip(m.cols);
    assert forall|i: int| 0 <= i < parts.len() implies !has_byte(#[trigger] parts[i], SPACE)
        && !has_byte(parts[i], NEWLINE) && !has_byte(parts[i], RETURN) by {
        if i >= 2 {
            assert(parts[i] == m.entries[i - 2]);
            lemma_float_is_plain(m.entries[i - 2]);
        }
    }
}

/// A matrix with at least one cell and entries that spell numbers is read
/// back from its own line, and that line comes back whole from a text.
pub proof fn lemma_matrix_round_trip(m: MatrixText)
    requires
        writable_matrix(m),
    ensures
        parsed_matrix(matrix_line(m)) == Some(m),
        whole_line(matrix_line(m)),
{
    let parts: Seq<Seq<u8>> = line_parts(m);
    let line: Seq<u8> = matrix_line(m);
    lemma_line_is_join(m);
    lemma_parts_plain(m);
    lemma_split_join(parts, SPACE);
    lemma_number_round_trip(m.rows);
    lemma_number_round_trip(m.cols);
    assert(split(line, SPACE) == parts);
    assert(parts.skip(2) =~= m.entries);
    assert(parts[0] == decimal(m.rows as nat));
    assert(parts[1] == decimal(m.cols as nat));
    assert(parts.len() - 2 == m.rows * m.cols);
    lemma_join_bytes(parts, SPACE, NEWLINE);
    lemma_join_bytes(parts, SPACE, RETURN);
    if line.len() > 0 && line.last() == RETURN {
        assert(line[line.len() - 1] == RETURN);
        assert(has_byte(line, RETURN));
    }
}

/// The markers and the names hold no line feed and no carriage return, and
/// the last line opens with the optimizer marker and holds no opening marker.
proof fn lemma_fixed_lines(activation: ActivationType, optimizer: OptimizerType)
    ensures
        whole_line(begin_marker()),
        whole_line(end_marker()),
        whole_line(activation.name()),
        whole_line(trailer(optimizer)),
        trailer(optimizer).len() > 0,
        contains(begin_marker(), begin_marker()),
        contains(end_marker(), end_marker()),
        contains(trailer(optimizer), optimizer_marker()),
        !contains(trailer(optimizer), begin_marker()),
        trailer(optimizer).skip(PREFIX_LEN as int) == optimizer.name(),
{
    lemma_markers();
    crate::activation::lemma_names();
    crate::optimizers::lemma_names();
    let begin: Seq<u8> = begin_marker();
    let end: Seq<u8> = end_marker();
    let opt: Seq<u8> = optimizer_marker();
    let name: Seq<u8> = activation.name();
    let kind: Seq<u8> = optimizer.name();
    let last: Seq<u8> = trailer(optimizer);
    assert(forall|i: int| 0 <= i < begin.len() ==> begin[i] >= 58);
    assert(forall|i: int| 0 <= i < end.len() ==> end[i] >= 58);
    assert(forall|i: int| 0 <= i < opt.len() ==> opt[i] >= 58 && opt[i] != 66);
    assert(forall|i: int| 0 <= i < name.len() ==> name[i] >= 58);
    assert(forall|i: int| 0 <= i < kind.len() ==> kind[i] >= 58);
    assert(forall|i: int| 0 <= i < last.len() ==> last[i] >= 58) by {
        assert forall|i: int| 0 <= i < last.len() implies last[i] >= 58 by {
            if i < opt.len() {
                assert(last[i] == opt[i]);
            } else {
                assert(last[i] == kind[i - opt.len()]);
            }
        }
    }
    assert(begin.subrange(0, begin.len() as int) =~= begin);
    assert(occurs_at(begin, begin, 0));
    assert(end.subrange(0, end.len() as int) =~= end);
    assert(occurs_at(end, end, 0));
    lemma_contains_prefix(opt, kind);
    assert(last.skip(PREFIX_LEN as int) =~= kind);
    assert(kind.len() <= 7);
    assert forall|k: int| !occurs_at(last, begin, k) by {
        if occurs_at(last, begin, k) {
            assert(k + 11 <= last.len());
            assert(k <= 6);
            assert(last.subrange(k, k + 11)[0] == begin[0]);
            assert(last[k] == opt[k]);
        }
    }
}

/// The blocks of the layers are their lines, a line feed behind each.
proof fn lemma_blocks_are_lines(layers: Seq<LayerText>)
    ensures
        layer_blocks(layers) == closed_lines(all_layer_lines(layers)),
        all_layer_lines(layers).len() == 5 * layers.len(),
    decreases layers.len(),
{
    if layers.len() > 0 {
        lemma_blocks_are_lines(layers.drop_last());
        let front: Seq<Seq<u8>> = all_layer_lines(layers.drop_last());
        let l: LayerText = layers.last();
        let five: Seq<Seq<u8>> = layer_lines(l);
        lemma_closed_concat(front, five);
        let one: Seq<Seq<u8>> = five.take(1);
        let two: Seq<Seq<u8>> = five.take(2);
        let three: Seq<Seq<u8>> = five.take(3);
        let four: Seq<Seq<u8>> = five.take(4);
        assert(one.drop_last() =~= Seq::<Seq<u8>>::empty());
        assert(two.drop_last() =~= one);
        assert(three.drop_last() =~= two);
        assert(four.drop_last() =~= three);
        assert(five.drop_last() =~= four);
        assert(closed_lines(one.drop_last()) =~= Seq::<u8>::empty());
        assert(closed_lines(one) =~= begin_marker() + seq![NEWLINE]);
        assert(closed_lines(two) =~= closed_lines(one) + matrix_line(l.bias) + seq![NEWLINE]);
        assert(closed_lines(three) =~= closed_lines(two) + matrix_line(l.weights) + seq![
            NEWLINE,
        ]);
        assert(closed_lines(four) =~= closed_lines(three) + l.activation.name() + seq![NEWLINE]);
        assert(closed_lines(five) =~= closed_lines(four) + end_marker() + seq![NEWLINE]);
        assert(closed_lines(five) =~= layer_block(l));
    }
}

/// Closing two runs of lines is closing each.
proof fn lemma_closed_concat(a: Seq<Seq<u8>>, b: Seq<Seq<u8>>)
    ensures
        closed_lines(a + b) == closed_lines(a) + closed_lines(b),
    decreases b.len(),
{
    if b.len() == 0 {
        assert(a + b =~= a);
        assert(closed_lines(a) + closed_lines(b) =~= closed_lines(a));
    } else {
        lemma_closed_concat(a, b.drop_last());
        assert((a + b).drop_last() =~= a + b.drop_last());
        assert((a + b).last() == b.last());
        assert(closed_lines(a + b) =~= closed_lines(a) + closed_lines(b));
    }
}

/// Splitting closed lines, with more text behind them, at the line feeds
/// gives the lines and then the pieces of the rest.
proof fn lemma_split_closed(ls: Seq<Seq<u8>>, rest: Seq<u8>)
    requires
        forall|i: int| 0 <= i < ls.len() ==> !has_byte(#[trigger] ls[i], NEWLINE),
    ensures
        split(closed_lines(ls) + rest, NEWLINE) == ls + split(rest, NEWLINE),
    decreases ls.len(),
{
    if ls.len() == 0 {
        assert(closed_lines(ls) + rest =~= rest);
        assert(ls + split(rest, NEWLINE) =~= split(rest, NEWLINE));
    } else {
        let front: Seq<Seq<u8>> = ls.drop_last();
        let tail: Seq<u8> = ls.last() + seq![NEWLINE] + rest;
        assert forall|i: int| 0 <= i < front.len() implies !has_byte(#[trigger] front[i], NEWLINE) by {
            assert(front[i] == ls[i]);
        }
        lemma_split_closed(front, tail);
        assert(closed_lines(ls) + rest =~= closed_lines(front) + tail);
        lemma_split_concat(ls.last(), rest, NEWLINE);
        lemma_split_plain(ls.last(), NEWLINE);
        assert(front + (seq![ls.last()] + split(rest, NEWLINE)) =~= ls + split(rest, NEWLINE));
    }
}

/// Line `j` of layer `k` stands at place `5 * k + j` among the lines of all
/// layers.
proof fn lemma_layer_line_at(layers: Seq<LayerText>, k: int, j: int)
    requires
        0 <= k < layers.len(),
        0 <= j < 5,
    ensures
        all_layer_lines(layers).len() == 5 * layers.len(),
        all_layer_lines(layers)[5 * k + j] == layer_lines(layers[k])[j],
    decreases layers.len(),
{
    lemma_blocks_are_lines(layers);
    let front: Seq<LayerText> = layers.drop_last();
    lemma_blocks_are_lines(front);
    let before: Seq<Seq<u8>> = all_layer_lines(front);
    let five: Seq<Seq<u8>> = layer_lines(layers.last());
    assert(all_layer_lines(layers) == before + five);
    if k < front.len() {
        lemma_layer_line_at(front, k, j);
        assert(front[k] == layers[k]);
        assert((before + five)[5 * k + j] == before[5 * k + j]);
    } else {
        assert(k == layers.len() - 1);
        assert(5 * k + j - before.len() == j);
        assert((before + five)[5 * k + j] == five[j]);
    }
}

/// Every line of a writable layer comes back whole from a text.
proof fn lemma_layer_lines_whole(layers: Seq<LayerText>)
    requires
        forall|i: int|
            0 <= i < layers.len() ==> writable_matrix((#[trigger] layers[i]).bias)
                && writable_matrix(layers[i].weights),
    ensures
        forall|i: int|
            0 <= i < all_layer_lines(layers).len() ==> whole_line(
                #[trigger] all_layer_lines(layers)[i],
            ),
    decreases layers.len(),
{
    if layers.len() > 0 {
        let front: Seq<LayerText> = layers.drop_last();
        assert forall|i: int| 0 <= i < front.len() implies writable_matrix(
            (#[trigger] front[i]).bias,
        ) && writable_matrix(front[i].weights) by {
            assert(front[i] == layers[i]);
        }
        lemma_layer_lines_whole(front);
        let l: LayerText = layers.last();
        assert(l == layers[layers.len() - 1]);
        assert(writable_matrix(l.bias) && writable_matrix(l.weights));
        lemma_matrix_round_trip(l.bias);
        lemma_matrix_round_trip(l.weights);
        lemma_fixed_lines(l.activation, OptimizerType::Default);
        let all: Seq<Seq<u8>> = all_layer_lines(layers);
        let before: Seq<Seq<u8>> = all_layer_lines(front);
        let five: Seq<Seq<u8>> = layer_lines(l);
        assert(all == before + five);
        assert(whole_line(five[0]) && whole_line(five[1]) && whole_line(five[2]) && whole_line(
            five[3],
        ) && whole_line(five[4]));
        assert forall|i: int| 0 <= i < all.len() implies whole_line(#[trigger] all[i]) by {
            if i < before.len() {
                assert(all[i] == before[i]);
            } else {
                let j: int = i - before.len();
                assert(all[i] == five[j]);
                assert(0 <= j < 5);
            }
        }
    }
}

/// The lines of a model's text are the lines of its layers and then the
/// optimizer line.
proof fn lemma_lines_of_model(m: ModelText)
    requires
        writable_model(m),
    ensures
        lines(model_text(m)) == all_layer_lines(m.layers).push(trailer(m.optimizer)),
{
    let ls: Seq<Seq<u8>> = all_layer_lines(m.layers);
    let last: Seq<u8> = trailer(m.optimizer);
    lemma_blocks_are_lines(m.layers);
    lemma_layer_lines_whole(m.layers);
    lemma_fixed_lines(ActivationType::ReLu, m.optimizer);
    lemma_split_closed(ls, last);
    lemma_split_plain(last, NEWLINE);
    let parts: Seq<Seq<u8>> = split(model_text(m), NEWLINE);
    assert(parts =~= ls.push(last));
    assert(parts.last() == last);
    let ended: Seq<Seq<u8>> = Seq::new((parts.len() - 1) as nat, |i: int| strip_return(parts[i]));
    assert(ended =~= ls) by {
        assert forall|i: int| 0 <= i < ls.len() implies ended[i] == ls[i] by {
            assert(parts[i] == ls[i]);
            assert(whole_line(ls[i]));
        }
    }
}

/// Five lines that were written for a layer spell that layer.
proof fn lemma_parsed_layer(all: Seq<Seq<u8>>, at: int, l: LayerText)
    requires
        0 <= at,
        at + 4 < all.len(),
        writable_matrix(l.bias),
        writable_matrix(l.weights),
        all[at] == begin_marker(),
        all[at + 1] == matrix_line(l.bias),
        all[at + 2] == matrix_line(l.weights),
        all[at + 3] == l.activation.name(),
        all[at + 4] == end_marker(),
    ensures
        contains(all[at], begin_marker()),
        parsed_layer(all, at) == Ok::<LayerText, ParseError>(l),
{
    lemma_fixed_lines(l.activation, OptimizerType::Default);
    crate::activation::lemma_name_round_trip(l.activation);
    lemma_matrix_round_trip(l.bias);
    lemma_matrix_round_trip(l.weights);
}

/// The optimizer line, standing last, ends the reading with the model.
proof fn lemma_parsed_trailer(all: Seq<Seq<u8>>, at: int, m: ModelText)
    requires
        0 <= at,
        at + 1 == all.len(),
        all[at] == trailer(m.optimizer),
    ensures
        parsed_from(all, at, m.layers, OptimizerType::Default) == Ok::<ModelText, ParseError>(m),
{
    lemma_fixed_lines(ActivationType::ReLu, m.optimizer);
    crate::optimizers::lemma_name_round_trip(m.optimizer);
    let named: OptimizerType = OptimizerType::named(all[at].skip(PREFIX_LEN as int));
    assert(named == m.optimizer);
    assert(parsed_from(all, at + 1, m.layers, named) == Ok::<ModelText, ParseError>(m));
}

/// Reading the lines of a writable model from its `k`-th layer on, with the
/// layers before it in hand, gives the model.
proof fn lemma_parse_from_layer(m: ModelText, k: int)
    requires
        writable_model(m),
        0 <= k <= m.layers.len(),
    ensures
        parsed_from(
            all_layer_lines(m.layers).push(trailer(m.optimizer)),
            5 * k,
            m.layers.take(k),
            OptimizerType::Default,
        ) == Ok::<ModelText, ParseError>(m),
    decreases m.layers.len() - k,
{
    let ls: Seq<Seq<u8>> = all_layer_lines(m.layers);
    let all: Seq<Seq<u8>> = ls.push(trailer(m.optimizer));
    lemma_blocks_are_lines(m.layers);
    assert(all.len() == 5 * m.layers.len() + 1);
    if k == m.layers.len() {
        assert(all[5 * k] == trailer(m.optimizer));
        assert(m.layers.take(k) =~= m.layers);
        lemma_parsed_trailer(all, 5 * k, m);
    } else {
        let l: LayerText = m.layers[k];
        let at: int = 5 * k;
        lemma_layer_line_at(m.layers, k, 0);
        lemma_layer_line_at(m.layers, k, 1);
        lemma_layer_line_at(m.layers, k, 2);
        lemma_layer_line_at(m.layers, k, 3);
        lemma_layer_line_at(m.layers, k, 4);
        assert(at + 4 < ls.len());
        assert(all[at] == ls[at]);
        assert(all[at + 1] == ls[at + 1]);
        assert(all[at + 2] == ls[at + 2]);
        assert(all[at + 3] == ls[at + 3]);
        assert(all[at + 4] == ls[at + 4]);
        lemma_parsed_layer(all, at, l);
        assert(m.layers.take(k).push(l) =~= m.layers.take(k + 1));
        lemma_parse_from_layer(m, k + 1);
        assert(5 * (k + 1) == at + 5);
    }
}

/// A saved model is read back as it was: for every model whose matrices have
/// at least one cell and entries that spell numbers, the text written for it
/// spells exactly that model, with every shape, every entry, every activation
/// and the optimizer's kind.
pub proof fn lemma_round_trip(m: ModelText)
    requires
        writable_model(m),
    ensures
        parsed_model(model_text(m)) == Ok::<ModelText, ParseError>(m),
{
    lemma_lines_of_model(m);
    lemma_parse_from_layer(m, 0);
    assert(m.layers.take(0) =~= Seq::<LayerText>::empty());
}

} // verus!
