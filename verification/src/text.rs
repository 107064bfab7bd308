//! The extraction of positioned text from the tokens of a content stream.
use crate::content_stream_lexer::{ContentToken, ContentTokenView, Matrix};
use crate::error::{PdfError, Violation};
use crate::number::Decimal;
use crate::pdf::clone_bytes;
use vstd::prelude::*;

verus! {

/// A string that a page shows, and where: at the position that the text
/// matrix gave when it was shown.
#[derive(Debug, PartialEq)]
pub struct PositionedText {
    pub text: Vec<u8>,
    pub x: Decimal,
    pub y: Decimal,
}

/// The strings that one text object shows, in the order in which it shows them.
#[derive(Debug, PartialEq)]
pub struct TextObjectContent {
    pub positioned_text: Vec<PositionedText>,
}

pub struct RunView {
    pub text: Seq<u8>,
    pub x: Decimal,
    pub y: Decimal,
}

impl View for PositionedText {
    type V = RunView;

    open spec fn view(&self) -> RunView {
        RunView { text: self.text@, x: self.x, y: self.y }
    }
}

pub open spec fn runs_view(runs: Seq<PositionedText>) -> Seq<RunView> {
    runs.map_values(|r: PositionedText| r@)
}

impl View for TextObjectContent {
    type V = Seq<RunView>;

    open spec fn view(&self) -> Seq<RunView> {
        runs_view(self.positioned_text@)
    }
}

pub open spec fn objects_view(objects: Seq<TextObjectContent>) -> Seq<Seq<RunView>> {
    objects.map_values(|o: TextObjectContent| o@)
}

/// The state of the extraction between two tokens.
pub struct TextState {
    /// Whether a text object is open.
    pub in_text: bool,
    /// The text matrix that was last set in the open text object.
    pub matrix: Option<Matrix>,
    /// The strings that the open text object has shown.
    pub current: Seq<RunView>,
    /// The text objects that were closed.
    pub done: Seq<Seq<RunView>>,
}

pub open spec fn initial_state() -> TextState {
    TextState { in_text: false, matrix: None, current: Seq::empty(), done: Seq::empty() }
}

/// The string `text` shown under the text matrix `m`.
pub open spec fn run_at(text: Seq<u8>, m: Matrix) -> RunView {
    RunView { text, x: m.e, y: m.f }
}

/// What one token does to the state. Outside a text object only the token
/// that opens one counts. Inside, a text object may not open again, text may
/// be shown only once a text matrix is set, and no operator but those of
/// text may stand.
pub open spec fn text_step(state: TextState, token: ContentTokenView) -> Result<
    TextState,
    PdfError,
> {
    if state.in_text {
        match token {
            ContentTokenView::BeginTextObject => Err(
                PdfError::StateViolation { cause: Violation::NestedTextObject },
            ),
            ContentTokenView::EndTextObject => Ok(
                TextState {
                    in_text: false,
                    matrix: None,
                    current: Seq::empty(),
                    done: state.done.push(state.current),
                },
            ),
            ContentTokenView::SetTextMatrix(m) => Ok(TextState { matrix: Some(m), ..state }),
            ContentTokenView::TextFont(_) => Ok(state),
            ContentTokenView::ShowTextString(text) => match state.matrix {
                Some(m) => Ok(TextState { current: state.current.push(run_at(text, m)), ..state }),
                None => Err(PdfError::StateViolation { cause: Violation::NoTextMatrix }),
            },
            _ => Err(PdfError::StateViolation { cause: Violation::OperatorInTextObject }),
        }
    } else {
        match token {
            ContentTokenView::BeginTextObject => Ok(
                TextState { in_text: true, matrix: None, current: Seq::empty(), ..state },
            ),
            ContentTokenView::EndTextObject => Err(
                PdfError::StateViolation { cause: Violation::UnopenedTextObject },
            ),
            _ => Ok(state),
        }
    }
}

/// The state behind all of `tokens`, or the error of the first token that
/// the state before it does not allow.
pub open spec fn text_fold(tokens: Seq<ContentTokenView>) -> Result<TextState, PdfError>
    decreases tokens.len(),
{
    if tokens.len() == 0 {
        Ok(initial_state())
    } else {
        match text_fold(tokens.drop_last()) {
            Ok(state) => text_step(state, tokens.last()),
            Err(e) => Err(e),
        }
    }
}

/// The text objects of a content stream: those that its tokens open and close.
pub open spec fn text_objects(tokens: Seq<ContentTokenView>) -> Result<
    Seq<Seq<RunView>>,
    PdfError,
> {
    match text_fold(tokens) {
        Ok(state) => Ok(state.done),
        Err(e) => Err(e),
    }
}

/// An error stays when more tokens follow.
pub proof fn lemma_error_stays(tokens: Seq<ContentTokenView>, k: int)
    requires
        0 <= k <= tokens.len(),
        text_fold(tokens.take(k)) is Err,
    ensures
        text_fold(tokens) == text_fold(tokens.take(k)),
    decreases tokens.len() - k,
{
    if k < tokens.len() {
        assert(tokens.drop_last().take(k) =~= tokens.take(k));
        lemma_error_stays(tokens.drop_last(), k);
    } else {
        assert(tokens.take(k) =~= tokens);
    }
}

pub open spec fn tokens_view(tokens: Seq<ContentToken>) -> Seq<ContentTokenView> {
    tokens.map_values(|t: ContentToken| t@)
}

pub open spec fn objects_result(r: Result<Vec<TextObjectContent>, PdfError>) -> Result<
    Seq<Seq<RunView>>,
    PdfError,
> {
    match r {
        Ok(objects) => Ok(objects_view(objects@)),
        Err(e) => Err(e),
    }
}

/// The text objects that `tokens` open and close, each with the strings that
/// it shows.
pub fn get_text_objects(tokens: &Vec<ContentToken>) -> (r: Result<
    Vec<TextObjectContent>,
    PdfError,
>)
    ensures
        objects_result(r) == text_objects(tokens_view(tokens@)),
{
    let ghost all = tokens_view(tokens@);
    let mut in_text: bool = false;
    let mut matrix: Option<Matrix> = None;
    let mut current: Vec<PositionedText> = Vec::new();
    let mut done: Vec<TextObjectContent> = Vec::new();
    let mut i: usize = 0;
    proof {
        assert(all.take(0) =~= Seq::<ContentTokenView>::empty());
        assert(runs_view(current@) =~= Seq::<RunView>::empty());
        assert(objects_view(done@) =~= Seq::<Seq<RunView>>::empty());
    }
    while i < tokens.len()
        invariant
            i <= tokens@.len(),
            all == tokens_view(tokens@),
            text_fold(all.take(i as int)) == Ok::<TextState, PdfError>(
                TextState {
                    in_text,
                    matrix,
                    current: runs_view(current@),
                    done: objects_view(done@),
                },
            ),
        decreases tokens@.len() - i,
    {
        let ghost state = TextState {
            in_text,
            matrix,
            current: runs_view(current@),
            done: objects_view(done@),
        };
        let ghost shown = runs_view(current@);
        let ghost closed = objects_view(done@);
        proof {
            assert(all.take(i + 1).drop_last() =~= all.take(i as int));
            assert(all.take(i + 1).last() == tokens@[i as int]@);
        }
        let failure: Option<PdfError> = if in_text {
            match &tokens[i] {
                ContentToken::BeginTextObject => Some(
                    PdfError::StateViolation { cause: Violation::NestedTextObject },
                ),
                ContentToken::EndTextObject => {
                    let mut finished: Vec<PositionedText> = Vec::new();
                    std::mem::swap(&mut finished, &mut current);
                    done.push(TextObjectContent { positioned_text: finished });
                    in_text = false;
                    matrix = None;
                    proof {
                        assert(runs_view(current@) =~= Seq::<RunView>::empty());
                        assert(objects_view(done@) =~= closed.push(shown));
                    }
                    None
                },
                ContentToken::SetTextMatrix(m) => {
                    matrix = Some(*m);
                    None
                },
                ContentToken::TextFont(_) => None,
                ContentToken::ShowTextString(text) => match matrix {
                    Some(m) => {
                        current.push(PositionedText { text: clone_bytes(text), x: m.e, y: m.f });
                        proof {
                            assert(runs_view(current@) =~= shown.push(run_at(text@, m)));
                        }
                        None
                    },
                    None => Some(PdfError::StateViolation { cause: Violation::NoTextMatrix }),
                },
                _ => Some(PdfError::StateViolation { cause: Violation::OperatorInTextObject }),
            }
        } else {
            match &tokens[i] {
                ContentToken::BeginTextObject => {
                    in_text = true;
                    matrix = None;
                    current = Vec::new();
                    proof {
                        assert(runs_view(current@) =~= Seq::<RunView>::empty());
                    }
                    None
                },
                ContentToken::EndTextObject => Some(
                    PdfError::StateViolation { cause: Violation::UnopenedTextObject },
                ),
                _ => None,
            }
        };
        match failure {
            Some(e) => {
                proof {
                    lemma_error_stays(all, i + 1);
                }
                return Err(e);
            },
            None => {},
        }
        i = i + 1;
    }
    assert(all.take(i as int) =~= all);
    Ok(done)
}

/// The strings of `runs`, one behind the other.
pub open spec fn joined(runs: Seq<RunView>) -> Seq<u8>
    decreases runs.len(),
{
    if runs.len() == 0 {
        Seq::empty()
    } else {
        joined(runs.drop_last()) + runs.last().text
    }
}

/// One line for each text object: its strings, one behind the other.
pub open spec fn grouped_text(objects: Seq<Seq<RunView>>) -> Seq<Seq<u8>> {
    objects.map_values(|runs: Seq<RunView>| joined(runs))
}

pub open spec fn lines_view(lines: Seq<Vec<u8>>) -> Seq<Seq<u8>> {
    lines.map_values(|line: Vec<u8>| line@)
}

/// The text of each text object as one line.
pub fn compile_grouped_text(object_contents: &[TextObjectContent]) -> (r: Vec<Vec<u8>>)
    ensures
        lines_view(r@) == grouped_text(objects_view(object_contents@)),
{
    let mut lines: Vec<Vec<u8>> = Vec::new();
    let mut i: usize = 0;
    while i < object_contents.len()
        invariant
            i <= object_contents@.len(),
            lines@.len() == i,
            forall|k: int| 0 <= k < i ==> (#[trigger] lines@[k])@ == joined(object_contents@[k]@),
        decreases object_contents@.len() - i,
    {
        let runs: &Vec<PositionedText> = &object_contents[i].positioned_text;
        let mut line: Vec<u8> = Vec::new();
        let mut j: usize = 0;
        assert(runs_view(runs@).take(0) =~= Seq::<RunView>::empty());
        while j < runs.len()
            invariant
                j <= runs@.len(),
                line@ == joined(runs_view(runs@).take(j as int)),
            decreases runs@.len() - j,
        {
            let text: &Vec<u8> = &runs[j].text;
            let ghost before = line@;
            let mut k: usize = 0;
            while k < text.len()
                invariant
                    k <= text@.len(),
                    line@ == before + text@.take(k as int),
                decreases text@.len() - k,
            {
                line.push(text[k]);
                assert(text@.take(k + 1) =~= text@.take(k as int).push(text@[k as int]));
                k = k + 1;
            }
            proof {
                assert(text@.take(k as int) =~= text@);
                assert(runs_view(runs@).take(j + 1).drop_last() =~= runs_view(runs@).take(
                    j as int,
                ));
                assert(runs_view(runs@).take(j + 1).last().text == text@);
            }
            j = j + 1;
        }
        assert(runs_view(runs@).take(j as int) =~= runs_view(runs@));
        lines.push(line);
        i = i + 1;
    }
    assert(lines_view(lines@) =~= grouped_text(objects_view(object_contents@)));
    lines
}

/// Whether the token at `open` opens a text object that the token at
/// `close` closes: no text object opens or closes between the two.
pub open spec fn is_text_span(tokens: Seq<ContentTokenView>, open: int, close: int) -> bool {
    &&& 0 <= open < close < tokens.len()
    &&& tokens[open] is BeginTextObject
    &&& tokens[close] is EndTextObject
    &&& forall|k: int|
        open < k < close ==> !((#[trigger] tokens[k]) is BeginTextObject) && !(tokens[k]
            is EndTextObject)
}

/// The text matrix that holds before the token at `at` in the text object
/// that opens at `open`: the one that was last set behind `open`.
pub open spec fn matrix_before(tokens: Seq<ContentTokenView>, open: int, at: int) -> Option<Matrix>
    decreases at - open,
{
    if at <= open + 1 {
        None
    } else {
        match tokens[at - 1] {
            ContentTokenView::SetTextMatrix(m) => Some(m),
            _ => matrix_before(tokens, open, at - 1),
        }
    }
}

/// The strings that the tokens between `open` and `at` show, each under the
/// text matrix that holds before it.
pub open spec fn runs_between(tokens: Seq<ContentTokenView>, open: int, at: int) -> Seq<RunView>
    decreases at - open,
{
    if at <= open + 1 {
        Seq::empty()
    } else {
        match tokens[at - 1] {
            ContentTokenView::ShowTextString(text) => match matrix_before(tokens, open, at - 1) {
                Some(m) => runs_between(tokens, open, at - 1).push(run_at(text, m)),
                None => runs_between(tokens, open, at - 1),
            },
            _ => runs_between(tokens, open, at - 1),
        }
    }
}

/// The index of the last token that opens a text object, or -1.
pub open spec fn last_open(tokens: Seq<ContentTokenView>) -> int
    decreases tokens.len(),
{
    if tokens.len() == 0 {
        -1
    } else if tokens.last() is BeginTextObject {
        tokens.len() - 1
    } else {
        last_open(tokens.drop_last())
    }
}

/// The text objects of a content stream as pairs of indices: for each token
/// that closes a text object, the index of the last token before it that
/// opens one, and its own.
pub open spec fn text_spans(tokens: Seq<ContentTokenView>) -> Seq<(int, int)>
    decreases tokens.len(),
{
    if tokens.len() == 0 {
        Seq::empty()
    } else if tokens.last() is EndTextObject {
        text_spans(tokens.drop_last()).push((last_open(tokens.drop_last()), tokens.len() - 1))
    } else {
        text_spans(tokens.drop_last())
    }
}

/// Whether the text objects `objects` are those of the spans `spans`: each
/// span is a text object that opens and closes, the spans follow one another,
/// and each text object holds the strings that are shown inside its span.
pub open spec fn bounded_by(
    tokens: Seq<ContentTokenView>,
    spans: Seq<(int, int)>,
    objects: Seq<Seq<RunView>>,
) -> bool {
    &&& spans.len() == objects.len()
    &&& forall|i: int|
        0 <= i < spans.len() ==> is_text_span(tokens, (#[trigger] spans[i]).0, spans[i].1)
    &&& forall|i: int|
        0 <= i < spans.len() ==> #[trigger] objects[i] == runs_between(
            tokens,
            spans[i].0,
            spans[i].1,
        )
    &&& forall|i: int, j: int|
        0 <= i < j < spans.len() ==> (#[trigger] spans[i]).1 < (#[trigger] spans[j]).0
}

proof fn lemma_matrix_before_prefix(
    tokens: Seq<ContentTokenView>,
    longer: Seq<ContentTokenView>,
    open: int,
    at: int,
)
    requires
        0 <= open,
        at <= tokens.len() <= longer.len(),
        forall|k: int| 0 <= k < tokens.len() ==> tokens[k] == longer[k],
    ensures
        matrix_before(tokens, open, at) == matrix_before(longer, open, at),
    decreases at - open,
{
    if at > open + 1 {
        lemma_matrix_before_prefix(tokens, longer, open, at - 1);
    }
}

proof fn lemma_runs_between_prefix(
    tokens: Seq<ContentTokenView>,
    longer: Seq<ContentTokenView>,
    open: int,
    at: int,
)
    requires
        0 <= open,
        at <= tokens.len() <= longer.len(),
        forall|k: int| 0 <= k < tokens.len() ==> tokens[k] == longer[k],
    ensures
        runs_between(tokens, open, at) == runs_between(longer, open, at),
    decreases at - open,
{
    if at > open + 1 {
        lemma_runs_between_prefix(tokens, longer, open, at - 1);
        lemma_matrix_before_prefix(tokens, longer, open, at - 1);
    }
}

/// What holds of the state behind `tokens`: the closed text objects are
/// those of the spans, and an open text object opened at the last token that
/// opens one, behind every span, and holds what was shown since.
pub open spec fn state_bounded(tokens: Seq<ContentTokenView>, state: TextState) -> bool {
    &&& bounded_by(tokens, text_spans(tokens), state.done)
    &&& forall|i: int|
        0 <= i < text_spans(tokens).len() ==> (#[trigger] text_spans(tokens)[i]).1 < tokens.len()
    &&& state.in_text ==> {
        &&& 0 <= last_open(tokens) < tokens.len()
        &&& tokens[last_open(tokens)] is BeginTextObject
        &&& forall|k: int|
            last_open(tokens) < k < tokens.len() ==> !((#[trigger] tokens[k]) is BeginTextObject)
                && !(tokens[k] is EndTextObject)
        &&& forall|i: int|
            0 <= i < text_spans(tokens).len() ==> (#[trigger] text_spans(tokens)[i]).1 < last_open(
                tokens,
            )
        &&& state.current == runs_between(tokens, last_open(tokens), tokens.len() as int)
        &&& state.matrix == matrix_before(tokens, last_open(tokens), tokens.len() as int)
    }
}

proof fn lemma_state_bounded(tokens: Seq<ContentTokenView>)
    requires
        text_fold(tokens) is Ok,
    ensures
        state_bounded(tokens, text_fold(tokens)->Ok_0),
    decreases tokens.len(),
{
    if tokens.len() > 0 {
        let before = tokens.drop_last();
        let last = tokens.last();
        let n = before.len() as int;
        lemma_state_bounded(before);
        let old_state = text_fold(before)->Ok_0;
        let state = text_fold(tokens)->Ok_0;
        let old_spans = text_spans(before);
        let spans = text_spans(tokens);
        assert forall|i: int| 0 <= i < old_spans.len() implies is_text_span(
            tokens,
            (#[trigger] old_spans[i]).0,
            old_spans[i].1,
        ) && runs_between(tokens, old_spans[i].0, old_spans[i].1) == runs_between(
            before,
            old_spans[i].0,
            old_spans[i].1,
        ) by {
            assert(is_text_span(before, old_spans[i].0, old_spans[i].1));
            lemma_runs_between_prefix(before, tokens, old_spans[i].0, old_spans[i].1);
            assert forall|k: int| old_spans[i].0 < k < old_spans[i].1 implies !((
            #[trigger] tokens[k]) is BeginTextObject) && !(tokens[k] is EndTextObject) by {
                assert(before[k] == tokens[k]);
            }
        }
        if old_state.in_text {
            let open = last_open(before);
            lemma_runs_between_prefix(before, tokens, open, n);
            lemma_matrix_before_prefix(before, tokens, open, n);
            assert forall|k: int| open < k < n implies !((#[trigger] tokens[k]) is BeginTextObject)
                && !(tokens[k] is EndTextObject) by {
                assert(before[k] == tokens[k]);
            }
            assert(tokens[open] == before[open]);
            if last is EndTextObject {
                assert(spans == old_spans.push((open, n)));
                assert(is_text_span(tokens, open, n));
                assert forall|i: int| 0 <= i < spans.len() implies is_text_span(
                    tokens,
                    (#[trigger] spans[i]).0,
                    spans[i].1,
                ) by {
                    if i < old_spans.len() {
                        assert(spans[i] == old_spans[i]);
                    }
                }
                assert forall|i: int| 0 <= i < spans.len() implies #[trigger] state.done[i]
                    == runs_between(tokens, spans[i].0, spans[i].1) by {
                    if i < old_spans.len() {
                        assert(spans[i] == old_spans[i]);
                        assert(state.done[i] == old_state.done[i]);
                    }
                }
                assert forall|i: int, j: int| 0 <= i < j < spans.len() implies (
                #[trigger] spans[i]).1 < (#[trigger] spans[j]).0 by {
                    assert(spans[i] == old_spans[i]);
                    if j < old_spans.len() {
                        assert(spans[j] == old_spans[j]);
                    }
                }
                assert forall|i: int| 0 <= i < spans.len() implies (#[trigger] spans[i]).1
                    < tokens.len() by {
                    if i < old_spans.len() {
                        assert(spans[i] == old_spans[i]);
                    }
                }
            } else {
                assert(spans == old_spans);
                assert(last_open(tokens) == open);
            }
        } else {
            assert(spans == old_spans);
            if last is BeginTextObject {
                assert(last_open(tokens) == n);
            }
        }
    }
}

/// Every text object that is emitted is bounded by a token that opens it and
/// a token that closes it, with no such token between the two; the text
/// objects follow one another; and each holds the strings that are shown
/// inside its bounds, and no other.
pub proof fn lemma_text_objects_bounded(tokens: Seq<ContentTokenView>)
    requires
        text_objects(tokens) is Ok,
    ensures
        bounded_by(tokens, text_spans(tokens), text_objects(tokens)->Ok_0),
{
    lemma_state_bounded(tokens);
}

} // verus!
