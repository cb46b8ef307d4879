use vstd::prelude::*;

use crate::errors::{ErrorKind, RunError};
use crate::text;

verus! {

/// The opcode repertoire.
#[derive(Clone, Copy, Debug, PartialEq, Eq, Structural)]
pub enum Command {
    LABEL,
    FUNCTION,
    CALL,
    RETURN,
    GOTO,
    IF,
    FOR,
    CONTINUE,
    SUM,
    SAY,
    ASK,
    SET,
    TABLE,
    GET,
    PUT,
    SLICE,
    NOOP,
}

/// One typed item of a tokenized line. `Array` is the intermediate form of a
/// bracketed group; pairing rewrites it into `Table`.
#[derive(Debug)]
pub enum LineItem {
    Command(Command),
    Label(String),
    String(String),
    Number(i64),
    Array(Vec<LineItem>),
    Table(Vec<usize>, Vec<LineItem>),
}

/// One canonicalized instruction with its 1-based source line number.
#[derive(Debug)]
pub struct Line {
    pub line_number: usize,
    pub items: Vec<LineItem>,
}

impl Line {
    pub fn new(line_number: usize) -> (r: Self)
        ensures
            r.line_number == line_number,
            r.items@.len() == 0,
    {
        Self { line_number, items: Vec::new() }
    }
}

/// The mathematical reading of a line item.
pub ghost enum ItemModel {
    Cmd { op: Command },
    Lbl { text: Seq<char> },
    Txt { text: Seq<char> },
    Num { n: int },
    Arr { items: Seq<ItemModel> },
    Tbl { dims: Seq<int>, data: Seq<ItemModel> },
}

pub open spec fn item_model(item: LineItem) -> ItemModel
    decreases item,
{
    match item {
        LineItem::Command(c) => ItemModel::Cmd { op: c },
        LineItem::Label(s) => ItemModel::Lbl { text: s@ },
        LineItem::String(s) => ItemModel::Txt { text: s@ },
        LineItem::Number(n) => ItemModel::Num { n: n as int },
        LineItem::Array(v) => ItemModel::Arr { items: items_model(v@) },
        LineItem::Table(d, v) => ItemModel::Tbl {
            dims: d@.map(|i: int, x: usize| x as int),
            data: items_model(v@),
        },
    }
}

pub open spec fn items_model(s: Seq<LineItem>) -> Seq<ItemModel>
    decreases s,
{
    if s.len() == 0 {
        Seq::empty()
    } else {
        items_model(s.drop_last()).push(item_model(s.last()))
    }
}

pub broadcast proof fn lemma_items_model_len(s: Seq<LineItem>)
    ensures
        (#[trigger] items_model(s)).len() == s.len(),
    decreases s,
{
    if s.len() > 0 {
        lemma_items_model_len(s.drop_last());
    }
}

pub broadcast proof fn lemma_items_model_index(s: Seq<LineItem>, i: int)
    requires
        0 <= i < s.len(),
    ensures
        #[trigger] items_model(s)[i] == item_model(s[i]),
    decreases s,
{
    lemma_items_model_len(s);
    if i < s.len() - 1 {
        lemma_items_model_index(s.drop_last(), i);
        assert(s.drop_last()[i] == s[i]);
    } else {
        assert(s.last() == s[i]);
    }
}

/// The view of a line: its number and the models of its items.
pub ghost struct LineModel {
    pub number: int,
    pub items: Seq<ItemModel>,
}

impl View for Line {
    type V = LineModel;

    open spec fn view(&self) -> LineModel {
        LineModel { number: self.line_number as int, items: items_model(self.items@) }
    }
}

pub fn clone_items(v: &Vec<LineItem>) -> (res: Vec<LineItem>)
    ensures
        items_model(res@) == items_model(v@),
        res@.len() == v@.len(),
    decreases v,
{
    let mut res: Vec<LineItem> = Vec::new();
    let mut i: usize = 0;
    while i < v.len()
        invariant
            i <= v@.len(),
            res@.len() == i,
            items_model(res@) == items_model(v@.subrange(0, i as int)),
        decreases v@.len() - i,
    {
        proof {
            vstd::std_specs::vec::axiom_vec_index_decreases(*v, i as int);
        }
        let ghost prior = res@;
        res.push(v[i].clone());
        proof {
            assert(res@.drop_last() =~= prior);
            assert(v@.subrange(0, i + 1).drop_last() =~= v@.subrange(0, i as int));
            assert(v@.subrange(0, i + 1).last() == v@[i as int]);
            assert(items_model(res@) == items_model(prior).push(item_model(res@.last())));
            assert(items_model(v@.subrange(0, i + 1)) == items_model(
                v@.subrange(0, i as int),
            ).push(item_model(v@[i as int])));
        }
        i = i + 1;
    }
    proof {
        assert(v@.subrange(0, v@.len() as int) =~= v@);
    }
    res
}


impl Clone for LineItem {
    /// A structurally equal copy, seen through the item model.
    fn clone(&self) -> (res: Self)
        ensures
            item_model(res) == item_model(*self),
        decreases *self,
    {
        match self {
            LineItem::Command(c) => LineItem::Command(*c),
            LineItem::Label(s) => LineItem::Label(s.clone()),
            LineItem::String(s) => LineItem::String(s.clone()),
            LineItem::Number(n) => LineItem::Number(*n),
            LineItem::Array(v) => LineItem::Array(clone_items(v)),
            LineItem::Table(d, v) => LineItem::Table(
                crate::value::copy_usize_vec(d),
                clone_items(v),
            ),
        }
    }
}

/// What `snailquote::unescape` computes: a function of the characters alone.
pub uninterp spec fn unescaped(s: Seq<char>) -> Seq<char>;

/// Whether `snailquote::unescape` accepts the characters: success too is a
/// function of the input alone.
pub uninterp spec fn unescape_ok(s: Seq<char>) -> bool;

/// Relies on snailquote::unescape: removes shell-like quoting and decodes the
/// escapes of a double-quoted span; a function of the input characters alone,
/// failing exactly on the escapes it refuses.
#[verifier::external_body]
fn unescape_quoted(s: &str) -> (r: Result<String, ()>)
    ensures
        r is Ok <==> unescape_ok(s@),
        r matches Ok(t) ==> t@ == unescaped(s@),
{
    match snailquote::unescape(s) {
        Ok(t) => Ok(t),
        Err(_) => Err(()),
    }
}

/// The whitespace that separates tokens.
pub open spec fn is_ws(c: char) -> bool {
    c == ' ' || c == '\t' || c == '\r' || c == '\n' || c == '\u{0b}' || c == '\u{0c}'
}

fn is_ws_exec(c: char) -> (r: bool)
    ensures
        r == is_ws(c),
{
    c == ' ' || c == '\t' || c == '\r' || c == '\n' || c == '\u{0b}' || c == '\u{0c}'
}

/// The operator glyphs that always read as labels.
pub open spec fn is_symbol_text(s: Seq<char>) -> bool {
    ||| s == "+"@
    ||| s == "=="@
    ||| s == "-"@
    ||| s == "*"@
    ||| s == "/"@
    ||| s == "%"@
    ||| s == "<"@
    ||| s == ">"@
    ||| s == "<="@
    ||| s == ">="@
}

/// How a bare atom reads: operator glyphs and non-numeric text are labels,
/// number text is a number.
pub open spec fn atom_model(s: Seq<char>) -> ItemModel {
    if is_symbol_text(s) {
        ItemModel::Lbl { text: s }
    } else if text::is_number_text(s) {
        ItemModel::Num { n: text::number_text_value(s) }
    } else {
        ItemModel::Lbl { text: s }
    }
}

fn classify_atom(token: &str) -> (r: LineItem)
    ensures
        item_model(r) == atom_model(token@),
{
    let owned = token.to_owned();
    let symbol = owned == String::from_str("+") || owned == String::from_str("==") || owned
        == String::from_str("-") || owned == String::from_str("*") || owned == String::from_str(
        "/",
    ) || owned == String::from_str("%") || owned == String::from_str("<") || owned
        == String::from_str(">") || owned == String::from_str("<=") || owned == String::from_str(
        ">=",
    );
    if symbol {
        LineItem::Label(owned)
    } else {
        match text::parse_number_token(token) {
            Some(n) => LineItem::Number(n),
            None => LineItem::Label(owned),
        }
    }
}

/// The decomposer's running state: the completed top-level items of the
/// logical line under construction, and one open group per unclosed bracket.
pub struct ParserState {
    pub line_number: usize,
    pub root: Vec<LineItem>,
    pub stack: Vec<Vec<LineItem>>,
}

impl ParserState {
    /// The head of a logical line is always the promoted command.
    pub open spec fn wf(self) -> bool {
        &&& self.stack@.len() > 0 ==> self.root@.len() > 0
        &&& self.root@.len() > 0 ==> items_model(self.root@)[0] is Cmd
    }

    pub fn new(line_number: usize) -> (r: Self)
        ensures
            r.wf(),
            r.line_number == line_number,
            r.root@.len() == 0,
            r.stack@.len() == 0,
    {
        ParserState { line_number, root: Vec::new(), stack: Vec::new() }
    }
}

/// The mathematical reading of the open bracket groups.
pub open spec fn stacks_model(s: Seq<Vec<LineItem>>) -> Seq<Seq<ItemModel>>
    decreases s,
{
    if s.len() == 0 {
        Seq::empty()
    } else {
        stacks_model(s.drop_last()).push(items_model(s.last()@))
    }
}

pub broadcast proof fn lemma_stacks_model_len(s: Seq<Vec<LineItem>>)
    ensures
        (#[trigger] stacks_model(s)).len() == s.len(),
    decreases s,
{
    if s.len() > 0 {
        lemma_stacks_model_len(s.drop_last());
    }
}

pub broadcast proof fn lemma_stacks_model_index(s: Seq<Vec<LineItem>>, i: int)
    requires
        0 <= i < s.len(),
    ensures
        #[trigger] stacks_model(s)[i] == items_model(s[i]@),
    decreases s,
{
    lemma_stacks_model_len(s);
    if i < s.len() - 1 {
        lemma_stacks_model_index(s.drop_last(), i);
        assert(s.drop_last()[i] == s[i]);
    } else {
        assert(s.last() == s[i]);
    }
}

proof fn lemma_stacks_model_update(s: Seq<Vec<LineItem>>, i: int, g: Vec<LineItem>)
    requires
        0 <= i < s.len(),
    ensures
        stacks_model(s.update(i, g)) =~= stacks_model(s).update(i, items_model(g@)),
    decreases s,
{
    lemma_stacks_model_len(s);
    lemma_stacks_model_len(s.update(i, g));
    assert forall|j: int|
        0 <= j < s.len() implies #[trigger] stacks_model(s.update(i, g))[j] == stacks_model(
        s,
    ).update(i, items_model(g@))[j] by {
        lemma_stacks_model_index(s.update(i, g), j);
        lemma_stacks_model_index(s, j);
        if j == i {
            assert(s.update(i, g)[j] == g);
        } else {
            assert(s.update(i, g)[j] == s[j]);
        }
    }
}

/// The decomposer's state, mathematically: the completed top-level items and
/// one item group per open bracket.
pub ghost struct ScanState {
    pub root: Seq<ItemModel>,
    pub stack: Seq<Seq<ItemModel>>,
}

impl ParserState {
    /// The mathematical reading of the running state.
    pub open spec fn model(self) -> ScanState {
        ScanState { root: items_model(self.root@), stack: stacks_model(self.stack@) }
    }
}

/// Where a completed item lands: the innermost open group, or the line.
pub open spec fn scan_push(st: ScanState, item: ItemModel) -> ScanState {
    if st.stack.len() > 0 {
        ScanState {
            root: st.root,
            stack: st.stack.update(st.stack.len() - 1, st.stack.last().push(item)),
        }
    } else {
        ScanState { root: st.root.push(item), stack: st.stack }
    }
}

/// Closing a bracket: the innermost group becomes an array item one level
/// up; with no bracket open it is an error.
pub open spec fn scan_close(st: ScanState) -> Result<ScanState, ErrorKind> {
    if st.stack.len() == 0 {
        Err(ErrorKind::UnclosedBracket)
    } else {
        Ok(
            scan_push(
                ScanState { root: st.root, stack: st.stack.drop_last() },
                ItemModel::Arr { items: st.stack.last() },
            ),
        )
    }
}

/// The first whitespace at or after a position.
pub open spec fn ws_end(text: Seq<char>, pos: int) -> int
    decreases text.len() - pos,
{
    if pos < 0 || pos >= text.len() {
        text.len() as int
    } else if is_ws(text[pos]) {
        pos
    } else {
        ws_end(text, pos + 1)
    }
}

/// The first position at or after a position that cannot extend a bare
/// atom: whitespace, a bracket or a quote.
pub open spec fn atom_end(text: Seq<char>, pos: int) -> int
    decreases text.len() - pos,
{
    if pos < 0 || pos >= text.len() {
        text.len() as int
    } else if is_ws(text[pos]) || text[pos] == '[' || text[pos] == ']' || text[pos] == '"' {
        pos
    } else {
        atom_end(text, pos + 1)
    }
}

/// The closing quote at or after a position: the first quote not preceded
/// by a backslash, or the end of the line if none closes.
pub open spec fn string_close(text: Seq<char>, pos: int) -> int
    decreases text.len() - pos,
{
    if pos < 0 || pos >= text.len() {
        text.len() as int
    } else if text[pos] == '"' && text[pos - 1] != '\\' {
        pos
    } else {
        string_close(text, pos + 1)
    }
}

proof fn lemma_ws_end_ge(text: Seq<char>, pos: int)
    ensures
        ws_end(text, pos) <= text.len(),
        0 <= pos <= text.len() ==> ws_end(text, pos) >= pos,
    decreases text.len() - pos,
{
    if 0 <= pos < text.len() && !is_ws(text[pos]) {
        lemma_ws_end_ge(text, pos + 1);
    }
}

proof fn lemma_atom_end_ge(text: Seq<char>, pos: int)
    ensures
        atom_end(text, pos) <= text.len(),
        0 <= pos <= text.len() ==> atom_end(text, pos) >= pos,
    decreases text.len() - pos,
{
    if 0 <= pos < text.len() && !(is_ws(text[pos]) || text[pos] == '[' || text[pos] == ']'
        || text[pos] == '"') {
        lemma_atom_end_ge(text, pos + 1);
    }
}

proof fn lemma_string_close_ge(text: Seq<char>, pos: int)
    ensures
        string_close(text, pos) <= text.len(),
        0 <= pos <= text.len() ==> string_close(text, pos) >= pos,
    decreases text.len() - pos,
{
    if 0 <= pos < text.len() && !(text[pos] == '"' && text[pos - 1] != '\\') {
        lemma_string_close_ge(text, pos + 1);
    }
}

/// One scan of a physical line from a position: whitespace separates,
/// a double slash drops the rest, the first token of a logical line is the
/// command, brackets open and close groups, quoted spans decode through the
/// escape decoder, and bare atoms classify as numbers or labels.
pub open spec fn scan_from(st: ScanState, text: Seq<char>, pos: int) -> Result<
    ScanState,
    ErrorKind,
>
    decreases text.len() - pos,
    via scan_from_decreases
{
    if pos < 0 || pos >= text.len() {
        Ok(st)
    } else if is_ws(text[pos]) {
        scan_from(st, text, pos + 1)
    } else if pos + 1 < text.len() && text[pos] == '/' && text[pos + 1] == '/' {
        Ok(st)
    } else if st.root.len() == 0 && st.stack.len() == 0 {
        let end = ws_end(text, pos);
        scan_from(
            scan_push(st, ItemModel::Cmd { op: command_of(text.subrange(pos, end)) }),
            text,
            end,
        )
    } else if text[pos] == '[' {
        scan_from(
            ScanState { root: st.root, stack: st.stack.push(Seq::empty()) },
            text,
            pos + 1,
        )
    } else if text[pos] == ']' {
        match scan_close(st) {
            Ok(st2) => scan_from(st2, text, pos + 1),
            Err(k) => Err(k),
        }
    } else if text[pos] == '"' {
        let close = string_close(text, pos + 1);
        if close >= text.len() {
            Err(ErrorKind::UnclosedString)
        } else {
            let span = text.subrange(pos, close + 1);
            if unescape_ok(span) {
                scan_from(scan_push(st, ItemModel::Txt { text: unescaped(span) }), text, close + 1)
            } else {
                Err(ErrorKind::BadEscape)
            }
        }
    } else {
        let end = atom_end(text, pos + 1);
        scan_from(scan_push(st, atom_model(text.subrange(pos, end))), text, end)
    }
}

#[via_fn]
proof fn scan_from_decreases(st: ScanState, text: Seq<char>, pos: int) {
    if 0 <= pos < text.len() {
        lemma_ws_end_ge(text, pos + 1);
        lemma_atom_end_ge(text, pos + 1);
        lemma_string_close_ge(text, pos + 1);
        if !is_ws(text[pos]) {
            assert(ws_end(text, pos) == ws_end(text, pos + 1));
            assert(ws_end(text, pos) > pos);
        }
    }
}

/// Adds a completed item to the innermost open group, or to the logical line
/// itself when no bracket is open.
fn push_item(state: &mut ParserState, item: LineItem)
    requires
        old(state).wf(),
        old(state).root@.len() > 0 || old(state).stack@.len() > 0 || item_model(item) is Cmd,
    ensures
        final(state).wf(),
        final(state).line_number == old(state).line_number,
        final(state).stack@.len() == old(state).stack@.len(),
        final(state).root@.len() >= old(state).root@.len(),
        old(state).root@.len() > 0 ==> final(state).root@.len() > 0,
        final(state).model() == scan_push(old(state).model(), item_model(item)),
{
    let ghost pre_model = state.model();
    if state.stack.len() > 0 {
        let last = state.stack.len() - 1;
        let ghost prior_stack = state.stack@;
        let slot = &mut state.stack[last];
        let ghost prior_group = slot@;
        slot.push(item);
        let ghost post_group = *slot;
        proof {
            assert(state.stack@ == prior_stack.update(last as int, post_group));
            assert(post_group@ =~= prior_group.push(item));
            lemma_stacks_model_update(prior_stack, last as int, post_group);
            lemma_stacks_model_index(prior_stack, last as int);
            assert(items_model(post_group@) =~= items_model(prior_group).push(item_model(item)))
                by {
                assert(post_group@.drop_last() =~= prior_group);
            }
            lemma_stacks_model_len(prior_stack);
            assert(state.model().stack =~= scan_push(pre_model, item_model(item)).stack);
            assert(state.model() == scan_push(pre_model, item_model(item)));
        }
    } else {
        let ghost prior = state.root@;
        state.root.push(item);
        proof {
            assert(state.root@.drop_last() =~= prior);
            if prior.len() == 0 {
                lemma_items_model_index(state.root@, 0);
            } else {
                lemma_items_model_index(state.root@, 0);
                lemma_items_model_index(prior, 0);
                assert(state.root@[0] == prior[0]);
            }
            lemma_stacks_model_len(state.stack@);
            assert(state.model() == scan_push(pre_model, item_model(item)));
        }
    }
}

/// Closes the innermost bracket, turning the group into an `Array` item.
fn close_bracket(state: &mut ParserState) -> (r: Result<(), ()>)
    requires
        old(state).wf(),
    ensures
        final(state).wf(),
        final(state).line_number == old(state).line_number,
        match r {
            Ok(()) => old(state).stack@.len() > 0 && final(state).stack@.len() == old(
                state,
            ).stack@.len() - 1 && scan_close(old(state).model()) == Ok::<ScanState, ErrorKind>(
                final(state).model(),
            ),
            Err(()) => old(state).stack@.len() == 0 && state == old(state) && scan_close(
                old(state).model(),
            ) == Err::<ScanState, ErrorKind>(ErrorKind::UnclosedBracket),
        },
{
    proof {
        lemma_stacks_model_len(state.stack@);
    }
    match state.stack.pop() {
        Some(group) => {
            let ghost pre_model = old(state).model();
            proof {
                assert(state.stack@ =~= old(state).stack@.drop_last());
                lemma_stacks_model_len(old(state).stack@);
                assert(stacks_model(state.stack@) =~= pre_model.stack.drop_last()) by {
                    lemma_stacks_model_len(state.stack@);
                    assert forall|j: int|
                        0 <= j < state.stack@.len() implies #[trigger] stacks_model(
                        state.stack@,
                    )[j] == pre_model.stack.drop_last()[j] by {
                        lemma_stacks_model_index(state.stack@, j);
                        lemma_stacks_model_index(old(state).stack@, j);
                        assert(state.stack@[j] == old(state).stack@[j]);
                    }
                }
                lemma_stacks_model_index(old(state).stack@, old(state).stack@.len() - 1);
                assert(items_model(group@) == pre_model.stack.last());
            }
            push_item(state, LineItem::Array(group));
            Ok(())
        },
        None => Err(()),
    }
}

/// Scans one physical line into the running state: tokens become items,
/// brackets open and close groups, strings are unescaped, `//` drops the
/// rest of the line, and the first token of a logical line becomes the
/// command.
pub fn decompose_line(text_line: &str, state: &mut ParserState) -> (r: Result<(), RunError>)
    requires
        old(state).wf(),
    ensures
        final(state).wf(),
        final(state).line_number == old(state).line_number,
        r matches Ok(()) ==> scan_from(old(state).model(), text_line@, 0) == Ok::<
            ScanState,
            ErrorKind,
        >(final(state).model()),
        r matches Err(e) ==> scan_from(old(state).model(), text_line@, 0) == Err::<
            ScanState,
            ErrorKind,
        >(e.kind),
        r matches Err(e) ==> (e.kind == ErrorKind::UnclosedString || e.kind
            == ErrorKind::UnclosedBracket || e.kind == ErrorKind::BadEscape) && e.line == old(
            state,
        ).line_number,
{
    let n: usize = text_line.unicode_len();
    let ghost st0 = old(state).model();
    let mut pos: usize = 0;
    while pos < n
        invariant
            pos <= n,
            n == text_line@.len(),
            state.wf(),
            state.line_number == old(state).line_number,
            st0 == old(state).model(),
            scan_from(st0, text_line@, 0) == scan_from(state.model(), text_line@, pos as int),
        decreases n - pos,
    {
        proof {
            lemma_items_model_len(state.root@);
            lemma_stacks_model_len(state.stack@);
        }
        let ghost pre = state.model();
        // Skip separating whitespace.
        if is_ws_exec(text_line.get_char(pos)) {
            proof {
                assert(scan_from(pre, text_line@, pos as int) == scan_from(
                    pre,
                    text_line@,
                    pos + 1,
                ));
            }
            pos = pos + 1;
        } else if pos + 1 < n && text_line.get_char(pos) == '/' && text_line.get_char(pos + 1)
            == '/' {
            // A comment at a token boundary drops the rest of the line.
            proof {
                assert(scan_from(pre, text_line@, pos as int) == Ok::<ScanState, ErrorKind>(pre));
            }
            return Ok(());
        } else if state.root.len() == 0 && state.stack.len() == 0 {
            // The first token of a logical line is the command.
            let mut end: usize = pos;
            while end < n && !is_ws_exec(text_line.get_char(end))
                invariant
                    pos <= end <= n,
                    n == text_line@.len(),
                    ws_end(text_line@, pos as int) == ws_end(text_line@, end as int),
                decreases n - end,
            {
                proof {
                    assert(ws_end(text_line@, end as int) == ws_end(text_line@, end + 1));
                }
                end = end + 1;
            }
            proof {
                assert(ws_end(text_line@, pos as int) == end as int);
            }
            let name = text_line.substring_char(pos, end);
            push_item(state, LineItem::Command(Command::from_string(name)));
            proof {
                assert(scan_from(pre, text_line@, pos as int) == scan_from(
                    state.model(),
                    text_line@,
                    end as int,
                ));
            }
            pos = end;
        } else if text_line.get_char(pos) == '[' {
            let ghost prior_stack = state.stack@;
            state.stack.push(Vec::new());
            proof {
                assert(state.stack@.drop_last() =~= prior_stack);
                assert(items_model(state.stack@.last()@) =~= Seq::<ItemModel>::empty());
                assert(stacks_model(state.stack@) == stacks_model(prior_stack).push(
                    Seq::<ItemModel>::empty(),
                ));
                assert(state.model() == (ScanState {
                    root: pre.root,
                    stack: pre.stack.push(Seq::empty()),
                }));
                assert(scan_from(pre, text_line@, pos as int) == scan_from(
                    state.model(),
                    text_line@,
                    pos + 1,
                ));
            }
            pos = pos + 1;
        } else if text_line.get_char(pos) == ']' {
            match close_bracket(state) {
                Ok(()) => {
                    proof {
                        assert(scan_from(pre, text_line@, pos as int) == scan_from(
                            state.model(),
                            text_line@,
                            pos + 1,
                        ));
                    }
                    pos = pos + 1;
                },
                Err(()) => {
                    proof {
                        assert(scan_from(pre, text_line@, pos as int) == Err::<
                            ScanState,
                            ErrorKind,
                        >(ErrorKind::UnclosedBracket));
                    }
                    return Err(RunError::at(ErrorKind::UnclosedBracket, state.line_number));
                },
            }
        } else if text_line.get_char(pos) == '"' {
            // A string literal runs to the next quote not preceded by a
            // backslash, whitespace included.
            let mut close: usize = pos + 1;
            let mut found = false;
            while close < n && !found
                invariant
                    pos + 1 <= close <= n,
                    n == text_line@.len(),
                    found ==> close < n,
                    string_close(text_line@, (pos + 1) as int) == if found {
                        close as int
                    } else {
                        string_close(text_line@, close as int)
                    },
                decreases n - close, if found {
                    0int
                } else {
                    1int
                },
            {
                if text_line.get_char(close) == '"' && text_line.get_char(close - 1) != '\\' {
                    proof {
                        assert(string_close(text_line@, close as int) == close as int);
                    }
                    found = true;
                } else {
                    proof {
                        assert(string_close(text_line@, close as int) == string_close(
                            text_line@,
                            close + 1,
                        ));
                    }
                    close = close + 1;
                }
            }
            if !found {
                proof {
                    assert(string_close(text_line@, (pos + 1) as int) == n as int);
                    assert(scan_from(pre, text_line@, pos as int) == Err::<ScanState, ErrorKind>(
                        ErrorKind::UnclosedString,
                    ));
                }
                return Err(RunError::at(ErrorKind::UnclosedString, state.line_number));
            }
            let raw = text_line.substring_char(pos, close + 1);
            match unescape_quoted(raw) {
                Ok(decoded) => {
                    let ghost dm = decoded@;
                    push_item(state, LineItem::String(decoded));
                    proof {
                        assert(raw@ == text_line@.subrange(pos as int, close + 1));
                        assert(dm == unescaped(text_line@.subrange(pos as int, close + 1)));
                        assert(scan_from(pre, text_line@, pos as int) == scan_from(
                            state.model(),
                            text_line@,
                            close + 1,
                        ));
                    }
                },
                Err(()) => {
                    proof {
                        assert(!unescape_ok(text_line@.subrange(pos as int, close + 1)));
                        assert(scan_from(pre, text_line@, pos as int) == Err::<
                            ScanState,
                            ErrorKind,
                        >(ErrorKind::BadEscape));
                    }
                    return Err(RunError::at(ErrorKind::BadEscape, state.line_number));
                },
            }
            pos = close + 1;
        } else {
            // A bare atom runs to whitespace or a bracket.
            let mut end: usize = pos + 1;
            while end < n && !is_ws_exec(text_line.get_char(end)) && text_line.get_char(end) != '['
                && text_line.get_char(end) != ']' && text_line.get_char(end) != '"'
                invariant
                    pos + 1 <= end <= n,
                    n == text_line@.len(),
                    atom_end(text_line@, (pos + 1) as int) == atom_end(text_line@, end as int),
                decreases n - end,
            {
                proof {
                    assert(atom_end(text_line@, end as int) == atom_end(text_line@, end + 1));
                }
                end = end + 1;
            }
            proof {
                assert(atom_end(text_line@, (pos + 1) as int) == end as int);
            }
            let token = text_line.substring_char(pos, end);
            push_item(state, classify_atom(token));
            proof {
                assert(scan_from(pre, text_line@, pos as int) == scan_from(
                    state.model(),
                    text_line@,
                    end as int,
                ));
            }
            pos = end;
        }
    }
    proof {
        assert(scan_from(state.model(), text_line@, pos as int) == Ok::<ScanState, ErrorKind>(
            state.model(),
        ));
    }
    Ok(())
}

/// The size of an item model; the recursion measure of the table rewrite.
pub open spec fn msize(m: ItemModel) -> nat
    decreases m,
{
    match m {
        ItemModel::Arr { items } => 1 + msizes(items),
        ItemModel::Tbl { dims, data } => 1 + msizes(data),
        _ => 1,
    }
}

pub open spec fn msizes(s: Seq<ItemModel>) -> nat
    decreases s,
{
    if s.len() == 0 {
        0
    } else {
        msizes(s.drop_last()) + msize(s.last())
    }
}

proof fn lemma_msizes_first(s: Seq<ItemModel>)
    requires
        s.len() > 0,
    ensures
        msizes(s) == msize(s[0]) + msizes(s.skip(1)),
    decreases s.len(),
{
    if s.len() == 1 {
        assert(s.skip(1) =~= Seq::<ItemModel>::empty());
        assert(s.drop_last() =~= Seq::<ItemModel>::empty());
        assert(s.last() == s[0]);
    } else {
        lemma_msizes_first(s.drop_last());
        assert(s.drop_last()[0] == s[0]);
        assert(s.skip(1).drop_last() =~= s.drop_last().skip(1));
        assert(s.skip(1).last() == s.last());
    }
}

/// Reads a group as table extents: every item a non-negative number.
pub open spec fn dims_of_model(items: Seq<ItemModel>) -> Option<Seq<usize>>
    decreases items.len(),
{
    if items.len() == 0 {
        Some(Seq::empty())
    } else {
        match dims_of_model(items.drop_last()) {
            Some(front) => match items.last() {
                ItemModel::Num { n } => if 0 <= n <= usize::MAX {
                    Some(front.push(n as usize))
                } else {
                    None
                },
                _ => None,
            },
            None => None,
        }
    }
}

/// Prepends items to a rewrite outcome.
pub open spec fn opt_concat(pre: Seq<ItemModel>, o: Option<Seq<ItemModel>>) -> Option<
    Seq<ItemModel>,
> {
    match o {
        Some(r) => Some(pre + r),
        None => None,
    }
}

/// The array-to-table rewrite: each `Arr` of numbers pairs with the `Arr`
/// that follows it to form a `Tbl`, recursively in the data; anything else
/// fails.
pub open spec fn tables_rewrite(s: Seq<ItemModel>) -> Option<Seq<ItemModel>>
    decreases msizes(s),
    via tables_rewrite_decreases
{
    if s.len() == 0 {
        Some(Seq::empty())
    } else {
        match s[0] {
            ItemModel::Arr { items } => match dims_of_model(items) {
                Some(dims) => {
                    if s.len() >= 2 && s[1] is Arr {
                        match tables_rewrite(s[1]->Arr_items) {
                            Some(rd) => opt_concat(
                                seq![
                                    ItemModel::Tbl {
                                        dims: dims.map(|i: int, x: usize| x as int),
                                        data: rd,
                                    },
                                ],
                                tables_rewrite(s.skip(2)),
                            ),
                            None => None,
                        }
                    } else {
                        None
                    }
                },
                None => None,
            },
            _ => opt_concat(seq![s[0]], tables_rewrite(s.skip(1))),
        }
    }
}

#[via_fn]
proof fn tables_rewrite_decreases(s: Seq<ItemModel>) {
    if s.len() > 0 {
        lemma_msizes_first(s);
        match s[0] {
            ItemModel::Arr { items } => {
                if s.len() >= 2 && s[1] is Arr {
                    lemma_msizes_first(s.skip(1));
                    assert(s.skip(1)[0] == s[1]);
                    assert(s.skip(1).skip(1) =~= s.skip(2));
                    assert(msize(s[1]) == 1 + msizes(s[1]->Arr_items));
                }
            },
            _ => {},
        }
    }
}

/// The case-insensitive command table: unknown names fall to `NOOP`.
pub open spec fn command_of(s: Seq<char>) -> Command {
    let l = text::fold_lower(s);
    if l == "label"@ {
        Command::LABEL
    } else if l == "function"@ {
        Command::FUNCTION
    } else if l == "call"@ {
        Command::CALL
    } else if l == "return"@ {
        Command::RETURN
    } else if l == "goto"@ {
        Command::GOTO
    } else if l == "if"@ {
        Command::IF
    } else if l == "for"@ {
        Command::FOR
    } else if l == "continue"@ {
        Command::CONTINUE
    } else if l == "sum"@ {
        Command::SUM
    } else if l == "say"@ {
        Command::SAY
    } else if l == "ask"@ {
        Command::ASK
    } else if l == "set"@ {
        Command::SET
    } else if l == "table"@ {
        Command::TABLE
    } else if l == "get"@ {
        Command::GET
    } else if l == "put"@ {
        Command::PUT
    } else if l == "slice"@ {
        Command::SLICE
    } else {
        Command::NOOP
    }
}

impl Command {
    /// Case-insensitive lookup of a command name; unknown names are `NOOP`.
    pub fn from_string(name: &str) -> (r: Command)
        ensures
            r == command_of(name@),
    {
        let lowered = text::lowercased(name);
        if lowered == String::from_str("label") {
            Command::LABEL
        } else if lowered == String::from_str("function") {
            Command::FUNCTION
        } else if lowered == String::from_str("call") {
            Command::CALL
        } else if lowered == String::from_str("return") {
            Command::RETURN
        } else if lowered == String::from_str("goto") {
            Command::GOTO
        } else if lowered == String::from_str("if") {
            Command::IF
        } else if lowered == String::from_str("for") {
            Command::FOR
        } else if lowered == String::from_str("continue") {
            Command::CONTINUE
        } else if lowered == String::from_str("sum") {
            Command::SUM
        } else if lowered == String::from_str("say") {
            Command::SAY
        } else if lowered == String::from_str("ask") {
            Command::ASK
        } else if lowered == String::from_str("set") {
            Command::SET
        } else if lowered == String::from_str("table") {
            Command::TABLE
        } else if lowered == String::from_str("get") {
            Command::GET
        } else if lowered == String::from_str("put") {
            Command::PUT
        } else if lowered == String::from_str("slice") {
            Command::SLICE
        } else {
            Command::NOOP
        }
    }
}

/// Whether an item can serve as one table extent.
pub open spec fn dim_ok(m: ItemModel) -> bool {
    m matches ItemModel::Num { n } && 0 <= n <= usize::MAX
}

proof fn lemma_dims_of_model_bad(s: Seq<ItemModel>, i: int)
    requires
        0 <= i < s.len(),
        !dim_ok(s[i]),
    ensures
        dims_of_model(s) is None,
    decreases s.len(),
{
    if i < s.len() - 1 {
        assert(s.drop_last()[i] == s[i]);
        lemma_dims_of_model_bad(s.drop_last(), i);
    } else {
        assert(s.last() == s[i]);
    }
}

proof fn lemma_msizes_split(s: Seq<ItemModel>, k: int)
    requires
        0 <= k <= s.len(),
    ensures
        msizes(s) == msizes(s.take(k)) + msizes(s.skip(k)),
    decreases s.len() - k,
{
    if k == s.len() {
        assert(s.take(k) =~= s);
        assert(s.skip(k) =~= Seq::<ItemModel>::empty());
    } else {
        lemma_msizes_split(s, k + 1);
        lemma_msizes_first(s.skip(k));
        assert(s.skip(k)[0] == s[k]);
        assert(s.skip(k).skip(1) =~= s.skip(k + 1));
        assert(s.take(k + 1).drop_last() =~= s.take(k));
        assert(s.take(k + 1).last() == s[k]);
    }
}

fn dims_from_items(v: &Vec<LineItem>) -> (r: Result<Vec<usize>, ()>)
    ensures
        match r {
            Ok(d) => dims_of_model(items_model(v@)) == Some(d@),
            Err(()) => dims_of_model(items_model(v@)) is None,
        },
{
    let mut d: Vec<usize> = Vec::new();
    let mut i: usize = 0;
    proof {
        lemma_items_model_len(v@);
    }
    while i < v.len()
        invariant
            i <= v@.len(),
            d@.len() == i,
            dims_of_model(items_model(v@.subrange(0, i as int))) == Some(d@),
        decreases v@.len() - i,
    {
        proof {
            lemma_items_model_len(v@);
            lemma_items_model_index(v@, i as int);
            lemma_items_model_len(v@.subrange(0, i + 1));
            assert(v@.subrange(0, i + 1).drop_last() =~= v@.subrange(0, i as int));
            assert(v@.subrange(0, i + 1).last() == v@[i as int]);
            assert(items_model(v@.subrange(0, i + 1)) == items_model(
                v@.subrange(0, i as int),
            ).push(item_model(v@[i as int])));
            assert(items_model(v@.subrange(0, i + 1)).drop_last() =~= items_model(
                v@.subrange(0, i as int),
            ));
            assert(items_model(v@.subrange(0, i + 1)).last() == item_model(v@[i as int]));
        }
        let good: Option<usize> = match &v[i] {
            LineItem::Number(x) => {
                if *x >= 0 && (*x as u64) <= (usize::MAX as u64) {
                    Some(*x as usize)
                } else {
                    None
                }
            },
            _ => None,
        };
        match good {
            Some(extent) => {
                let ghost prior = d@;
                d.push(extent);
                proof {
                    assert(d@.drop_last() =~= prior);
                }
            },
            None => {
                proof {
                    assert(!dim_ok(item_model(v@[i as int])));
                    lemma_items_model_index(v@, i as int);
                    lemma_items_model_len(v@);
                    lemma_dims_of_model_bad(items_model(v@), i as int);
                }
                return Err(());
            },
        }
        i = i + 1;
    }
    proof {
        assert(v@.subrange(0, v@.len() as int) =~= v@);
    }
    Ok(d)
}

/// Rewrites the top-level items of a completed logical line: each array of
/// numbers pairs with the array after it to form a dimensioned table, the
/// data rewritten recursively.
pub fn arrays_to_tables(line_items: &Vec<LineItem>) -> (r: Result<Vec<LineItem>, ErrorKind>)
    ensures
        match r {
            Ok(out) => tables_rewrite(items_model(line_items@)) == Some(items_model(out@)),
            Err(k) => k == ErrorKind::BadTableLiteral && tables_rewrite(items_model(line_items@))
                is None,
        },
    decreases msizes(items_model(line_items@)),
{
    let ghost whole = items_model(line_items@);
    proof {
        lemma_items_model_len(line_items@);
    }
    let n = line_items.len();
    let mut out: Vec<LineItem> = Vec::new();
    let mut i: usize = 0;
    proof {
        assert(whole.skip(0) =~= whole);
        if tables_rewrite(whole) is Some {
            assert(Seq::<ItemModel>::empty() + tables_rewrite(whole)->Some_0 =~= tables_rewrite(
                whole,
            )->Some_0);
        }
    }
    while i < n
        invariant
            i <= n,
            n == line_items@.len(),
            whole == items_model(line_items@),
            whole.len() == n,
            tables_rewrite(whole) == opt_concat(
                items_model(out@),
                tables_rewrite(whole.skip(i as int)),
            ),
        decreases n - i,
    {
        let ghost rest = whole.skip(i as int);
        proof {
            lemma_items_model_index(line_items@, i as int);
            assert(rest[0] == item_model(line_items@[i as int]));
            assert(rest.skip(1) =~= whole.skip(i + 1));
        }
        match &line_items[i] {
            LineItem::Array(dims_items) => {
                let dims = match dims_from_items(dims_items) {
                    Ok(d) => d,
                    Err(()) => {
                        return Err(ErrorKind::BadTableLiteral);
                    },
                };
                if i + 1 >= n {
                    return Err(ErrorKind::BadTableLiteral);
                }
                proof {
                    lemma_items_model_index(line_items@, i + 1);
                    assert(rest[1] == item_model(line_items@[i + 1 as int]));
                    assert(rest.skip(2) =~= whole.skip(i + 2));
                }
                match &line_items[i + 1] {
                    LineItem::Array(data_items) => {
                        proof {
                            lemma_msizes_first(rest);
                            lemma_msizes_first(rest.skip(1));
                            assert(rest.skip(1)[0] == rest[1]);
                            assert(msize(rest[1]) == 1 + msizes(items_model(data_items@)));
                            lemma_msizes_split(whole, i as int);
                            assert(msizes(items_model(data_items@)) < msizes(whole));
                        }
                        let rd = match arrays_to_tables(data_items) {
                            Ok(v) => v,
                            Err(k) => {
                                return Err(k);
                            },
                        };
                        let ghost prior_out = out@;
                        out.push(LineItem::Table(dims, rd));
                        proof {
                            assert(out@.drop_last() =~= prior_out);
                            let pushed = item_model(out@.last());
                            assert(items_model(out@) == items_model(prior_out).push(pushed));
                            assert(pushed == (ItemModel::Tbl {
                                dims: dims@.map(|q: int, x: usize| x as int),
                                data: items_model(rd@),
                            }));
                            assert(items_model(prior_out).push(pushed) =~= items_model(prior_out)
                                + seq![pushed]);
                            if tables_rewrite(whole.skip(i + 2)) is Some {
                                let tail = tables_rewrite(whole.skip(i + 2))->Some_0;
                                assert(tables_rewrite(rest) == Some(seq![pushed] + tail));
                                assert(items_model(prior_out) + (seq![pushed] + tail) =~= (
                                items_model(prior_out) + seq![pushed]) + tail);
                            }
                        }
                        i = i + 2;
                    },
                    _ => {
                        return Err(ErrorKind::BadTableLiteral);
                    },
                }
            },
            _ => {
                let ghost prior_out = out@;
                out.push(line_items[i].clone());
                proof {
                    assert(out@.drop_last() =~= prior_out);
                    let pushed = item_model(out@.last());
                    assert(items_model(out@) == items_model(prior_out).push(pushed));
                    assert(pushed == rest[0]);
                    assert(!(rest[0] is Arr));
                    assert(tables_rewrite(rest) == opt_concat(
                        seq![rest[0]],
                        tables_rewrite(rest.skip(1)),
                    ));
                    assert(items_model(prior_out).push(pushed) =~= items_model(prior_out) + seq![
                        pushed,
                    ]);
                    if tables_rewrite(whole.skip(i + 1)) is Some {
                        let tail = tables_rewrite(whole.skip(i + 1))->Some_0;
                        assert(items_model(prior_out) + (seq![pushed] + tail) =~= (items_model(
                            prior_out,
                        ) + seq![pushed]) + tail);
                    }
                }
                i = i + 1;
            },
        }
    }
    proof {
        assert(whole.skip(n as int) =~= Seq::<ItemModel>::empty());
        assert(tables_rewrite(whole.skip(n as int)) == Some(Seq::<ItemModel>::empty()));
        assert(items_model(out@) + Seq::<ItemModel>::empty() =~= items_model(out@));
    }
    Ok(out)
}

/// Decomposes raw source lines into canonical lines: tokenized, bracket
/// groups paired into tables, blank lines dropped, each line numbered by the
/// physical line it starts on, and each beginning with its command.
/// The decomposer's whole-file state: the scan in progress, the 1-based
/// source number of the logical line being gathered, and the lines emitted
/// so far.
pub ghost struct DecompState {
    pub scan: ScanState,
    pub number: int,
    pub out: Seq<LineModel>,
}

pub open spec fn decomp_init() -> DecompState {
    DecompState {
        scan: ScanState { root: Seq::empty(), stack: Seq::empty() },
        number: 1,
        out: Seq::empty(),
    }
}

/// One physical line: a fresh logical line takes the line's 1-based source
/// number, the scan consumes the text, and a completed logical line (no
/// bracket open, at least one item) is pair-rewritten and emitted.
pub open spec fn decomp_step(st: DecompState, text: Seq<char>, lineno: int) -> Result<
    DecompState,
    (ErrorKind, int),
> {
    let number = if st.scan.root.len() == 0 && st.scan.stack.len() == 0 {
        lineno
    } else {
        st.number
    };
    match scan_from(st.scan, text, 0) {
        Err(k) => Err((k, number)),
        Ok(sc2) => {
            if sc2.stack.len() == 0 && sc2.root.len() > 0 {
                match tables_rewrite(sc2.root) {
                    Some(items) => Ok(
                        DecompState {
                            scan: ScanState { root: Seq::empty(), stack: Seq::empty() },
                            number,
                            out: st.out.push(LineModel { number, items }),
                        },
                    ),
                    None => Err((ErrorKind::BadTableLiteral, number)),
                }
            } else {
                Ok(DecompState { scan: sc2, number, out: st.out })
            }
        },
    }
}

pub open spec fn decomp_fold(st: DecompState, lines: Seq<Seq<char>>, i: int) -> Result<
    DecompState,
    (ErrorKind, int),
>
    decreases lines.len() - i,
{
    if i < 0 || i >= lines.len() {
        Ok(st)
    } else {
        match decomp_step(st, lines[i], i + 1) {
            Ok(st2) => decomp_fold(st2, lines, i + 1),
            Err(e) => Err(e),
        }
    }
}

/// The texts of the source lines.
pub open spec fn texts_of(ls: Seq<String>) -> Seq<Seq<char>> {
    ls.map(|i: int, s: String| s@)
}

/// The whole decomposition: the physical lines scanned in order from an
/// empty state, logical lines emitted as they complete, and a bracket still
/// open at the end an error on the line that began the logical line.
pub open spec fn decomposed(lines: Seq<Seq<char>>) -> Result<Seq<LineModel>, (ErrorKind, int)> {
    match decomp_fold(decomp_init(), lines, 0) {
        Ok(st) => {
            if st.scan.stack.len() > 0 {
                Err((ErrorKind::UnclosedBracket, st.number))
            } else {
                Ok(st.out)
            }
        },
        Err(e) => Err(e),
    }
}

pub fn decompose_lines(lines: &Vec<String>) -> (r: Result<Vec<Line>, RunError>)
    ensures
        r matches Ok(out) ==> decomposed(texts_of(lines@)) == Ok::<
            Seq<LineModel>,
            (ErrorKind, int),
        >(out@.map(|j: int, l: Line| l@)),
        r matches Err(e) ==> decomposed(texts_of(lines@)) == Err::<
            Seq<LineModel>,
            (ErrorKind, int),
        >((e.kind, e.line as int)),
        r matches Ok(out) ==> forall|j: int|
            0 <= j < out@.len() ==> (#[trigger] out@[j])@.items.len() > 0 && out@[j]@.items[0]
                is Cmd && 1 <= out@[j]@.number <= lines@.len(),
        r matches Ok(out) ==> forall|j1: int, j2: int|
            0 <= j1 < j2 < out@.len() ==> (#[trigger] out@[j1])@.number < (
            #[trigger] out@[j2])@.number,
        r matches Err(e) ==> (e.kind == ErrorKind::UnclosedString || e.kind
            == ErrorKind::UnclosedBracket || e.kind == ErrorKind::BadEscape || e.kind
            == ErrorKind::BadTableLiteral) && 1 <= e.line <= lines@.len(),
{
    let ghost texts = texts_of(lines@);
    let mut state = ParserState::new(1);
    let mut produced: Vec<Line> = Vec::new();
    let ghost mut dst: DecompState = decomp_init();
    let mut i: usize = 0;
    proof {
        assert(state.model() == decomp_init().scan);
    }
    while i < lines.len()
        invariant
            i <= lines@.len(),
            state.wf(),
            1 <= state.line_number,
            state.line_number as int <= if i == 0 {
                1int
            } else {
                i as int
            },
            i == 0 ==> state.stack@.len() == 0 && state.root@.len() == 0,
            texts == texts_of(lines@),
            dst.scan == state.model(),
            dst.number == state.line_number as int,
            dst.out == produced@.map(|j: int, l: Line| l@),
            decomp_fold(decomp_init(), texts, 0) == decomp_fold(dst, texts, i as int),
            forall|j: int|
                0 <= j < produced@.len() ==> (#[trigger] produced@[j])@.items.len() > 0
                    && produced@[j]@.items[0] is Cmd && 1 <= produced@[j]@.number <= i,
            forall|j1: int, j2: int|
                0 <= j1 < j2 < produced@.len() ==> (#[trigger] produced@[j1])@.number < (
                #[trigger] produced@[j2])@.number,
            produced@.len() > 0 && !(state.stack@.len() == 0 && state.root@.len() == 0)
                ==> produced@.last()@.number < state.line_number as int,
        decreases lines@.len() - i,
    {
        proof {
            lemma_items_model_len(state.root@);
            lemma_stacks_model_len(state.stack@);
        }
        let ghost dpre = dst;
        let ghost number: int = if dpre.scan.root.len() == 0 && dpre.scan.stack.len() == 0 {
            i + 1
        } else {
            dpre.number
        };
        if state.stack.len() == 0 && state.root.len() == 0 {
            state.line_number = i + 1;
        }
        let ghost sc_pre = state.model();
        match decompose_line(lines[i].as_str(), &mut state) {
            Ok(()) => {
                proof {
                    assert(texts[i as int] == lines@[i as int]@);
                    assert(scan_from(sc_pre, lines@[i as int]@, 0) == Ok::<ScanState, ErrorKind>(
                        state.model(),
                    ));
                }
            },
            Err(e) => {
                proof {
                    assert(texts[i as int] == lines@[i as int]@);
                    assert(decomp_step(dpre, texts[i as int], i + 1) == Err::<
                        DecompState,
                        (ErrorKind, int),
                    >((e.kind, number)));
                    assert(decomp_fold(dpre, texts, i as int) == Err::<
                        DecompState,
                        (ErrorKind, int),
                    >((e.kind, number)));
                }
                return Err(e);
            },
        }
        proof {
            lemma_items_model_len(state.root@);
            lemma_stacks_model_len(state.stack@);
        }
        let ghost sc2 = state.model();
        if state.stack.len() == 0 && state.root.len() > 0 {
            let emit_number = state.line_number;
            let mut taken: Vec<LineItem> = Vec::new();
            core::mem::swap(&mut state.root, &mut taken);
            let ghost taken_model = items_model(taken@);
            let items = match arrays_to_tables(&taken) {
                Ok(v) => v,
                Err(k) => {
                    proof {
                        assert(decomp_step(dpre, texts[i as int], i + 1) == Err::<
                            DecompState,
                            (ErrorKind, int),
                        >((ErrorKind::BadTableLiteral, number)));
                        assert(decomp_fold(dpre, texts, i as int) == Err::<
                            DecompState,
                            (ErrorKind, int),
                        >((ErrorKind::BadTableLiteral, number)));
                    }
                    return Err(RunError::at(k, emit_number));
                },
            };
            proof {
                lemma_items_model_len(taken@);
                assert(taken_model.len() > 0);
                assert(taken_model[0] is Cmd);
                assert(!(taken_model[0] is Arr));
                lemma_items_model_len(items@);
                let tail = tables_rewrite(taken_model.skip(1));
                assert(tables_rewrite(taken_model) == opt_concat(seq![taken_model[0]], tail));
                assert(items_model(items@)[0] == taken_model[0]);
            }
            let ghost prior_produced = produced@;
            proof {
                if prior_produced.len() > 0 {
                    assert(prior_produced.last()@.number < emit_number as int);
                }
            }
            produced.push(Line { line_number: emit_number, items });
            proof {
                assert(forall|j: int|
                    0 <= j < prior_produced.len() ==> (#[trigger] produced@[j])
                        == prior_produced[j]);
                assert(produced@.last()@.items.len() > 0);
                assert(produced@.last()@.items[0] is Cmd);
                assert(produced@.last()@.number == emit_number as int);
                dst = DecompState {
                    scan: ScanState { root: Seq::empty(), stack: Seq::empty() },
                    number,
                    out: dpre.out.push(
                        LineModel { number, items: items_model(items@) },
                    ),
                };
                assert(decomp_step(dpre, texts[i as int], i + 1) == Ok::<
                    DecompState,
                    (ErrorKind, int),
                >(dst));
                assert(items_model(state.root@) =~= Seq::<ItemModel>::empty());
                assert(stacks_model(state.stack@) =~= Seq::<Seq<ItemModel>>::empty());
                assert(dst.scan == state.model());
                assert(dst.out =~= produced@.map(|j: int, l: Line| l@));
            }
        } else {
            proof {
                dst = DecompState { scan: sc2, number, out: dpre.out };
                assert(decomp_step(dpre, texts[i as int], i + 1) == Ok::<
                    DecompState,
                    (ErrorKind, int),
                >(dst));
            }
        }
        proof {
            assert(decomp_fold(dpre, texts, i as int) == decomp_fold(dst, texts, i + 1));
        }
        i = i + 1;
    }
    proof {
        assert(decomp_fold(dst, texts, i as int) == Ok::<DecompState, (ErrorKind, int)>(dst));
        lemma_stacks_model_len(state.stack@);
    }
    if state.stack.len() > 0 {
        proof {
            assert(decomposed(texts) == Err::<Seq<LineModel>, (ErrorKind, int)>(
                (ErrorKind::UnclosedBracket, dst.number),
            ));
        }
        return Err(RunError::at(ErrorKind::UnclosedBracket, state.line_number));
    }
    proof {
        assert(decomposed(texts) == Ok::<Seq<LineModel>, (ErrorKind, int)>(dst.out));
    }
    Ok(produced)
}

} // verus!
