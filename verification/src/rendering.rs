//! What the renderer writes, as steps for the writer to take, and the
//! steps for a table.
//!
//! A table gets a style class. Its body is closed only where it has one:
//! a table of a header alone has a single row group and no body to close.

use crate::text::{chars_of, string_of};
use vstd::prelude::*;

verus! {

/// One step of writing markup.
#[derive(Debug)]
pub enum RenderStep {
    /// Go to a new line, unless the output stands at the start of one.
    LineBreak,
    /// Write this text.
    Text(String),
    /// Write this text with the characters that markup gives a meaning
    /// escaped.
    Escaped(String),
    /// Write this address, escaped as the value of a link's address.
    Address(String),
    /// Write the node's position in the source, where the renderer is set
    /// to show positions.
    SourcePosition,
}

/// The mathematical value of a [`RenderStep`].
pub enum RenderStepView {
    LineBreak,
    Text(Seq<char>),
    Escaped(Seq<char>),
    Address(Seq<char>),
    SourcePosition,
}

impl View for RenderStep {
    type V = RenderStepView;

    open spec fn view(&self) -> RenderStepView {
        match self {
            RenderStep::LineBreak => RenderStepView::LineBreak,
            RenderStep::Text(t) => RenderStepView::Text(t@),
            RenderStep::Escaped(t) => RenderStepView::Escaped(t@),
            RenderStep::Address(t) => RenderStepView::Address(t@),
            RenderStep::SourcePosition => RenderStepView::SourcePosition,
        }
    }
}

/// The views of `steps`.
pub open spec fn step_views(steps: Seq<RenderStep>) -> Seq<RenderStepView> {
    Seq::new(steps.len(), |i: int| steps[i]@)
}

/// The steps on entering a table: a new line, the opening tag with the
/// style class, the position in the source, and the end of the tag.
pub open spec fn table_open_steps() -> Seq<RenderStepView> {
    seq![
        RenderStepView::LineBreak,
        RenderStepView::Text("<table class=\"table\""@),
        RenderStepView::SourcePosition,
        RenderStepView::Text(">"@),
    ]
}

/// The steps on leaving a table with `row_groups` row groups: the body is
/// closed where there is more than the header, then the table.
pub open spec fn table_close_steps(row_groups: nat) -> Seq<RenderStepView> {
    if row_groups > 1 {
        seq![
            RenderStepView::LineBreak,
            RenderStepView::Text("</tbody>"@),
            RenderStepView::LineBreak,
            RenderStepView::Text("</table>"@),
        ]
    } else {
        seq![RenderStepView::LineBreak, RenderStepView::Text("</table>"@)]
    }
}

/// How many of `steps` write `text`.
pub open spec fn times_written(steps: Seq<RenderStepView>, text: Seq<char>) -> nat
    decreases steps.len(),
{
    if steps.len() == 0 {
        0
    } else {
        times_written(steps.drop_last(), text) + if steps.last() == RenderStepView::Text(text) {
            1nat
        } else {
            0nat
        }
    }
}

/// A table of a header alone closes no body; a table with a body closes it
/// once.
pub proof fn lemma_body_closed_once(row_groups: nat)
    ensures
        times_written(table_close_steps(row_groups), "</tbody>"@) == if row_groups > 1 {
            1nat
        } else {
            0nat
        },
        times_written(table_open_steps(), "</tbody>"@) == 0,
{
    reveal_strlit("</tbody>");
    reveal_strlit("</table>");
    reveal_strlit("<table class=\"table\"");
    reveal_strlit(">");
    let body = "</tbody>"@;
    assert("</table>"@[3] != body[3]);
    assert(">"@.len() != body.len());
    assert("<table class=\"table\""@.len() != body.len());
    let closing = table_close_steps(row_groups);
    let opening = table_open_steps();
    reveal_with_fuel(times_written, 5);
    if row_groups > 1 {
        assert(closing.drop_last() =~= seq![
            RenderStepView::LineBreak,
            RenderStepView::Text(body),
            RenderStepView::LineBreak,
        ]);
        assert(closing.drop_last().drop_last() =~= seq![
            RenderStepView::LineBreak,
            RenderStepView::Text(body),
        ]);
        assert(closing.drop_last().drop_last().drop_last() =~= seq![RenderStepView::LineBreak]);
        assert(closing.drop_last().drop_last().drop_last().drop_last() =~= Seq::<
            RenderStepView,
        >::empty());
    } else {
        assert(closing.drop_last() =~= seq![RenderStepView::LineBreak]);
        assert(closing.drop_last().drop_last() =~= Seq::<RenderStepView>::empty());
    }
    assert(opening.drop_last() =~= seq![
        RenderStepView::LineBreak,
        RenderStepView::Text("<table class=\"table\""@),
        RenderStepView::SourcePosition,
    ]);
    assert(opening.drop_last().drop_last() =~= seq![
        RenderStepView::LineBreak,
        RenderStepView::Text("<table class=\"table\""@),
    ]);
    assert(opening.drop_last().drop_last().drop_last() =~= seq![RenderStepView::LineBreak]);
    assert(opening.drop_last().drop_last().drop_last().drop_last() =~= Seq::<RenderStepView>::empty());
}

/// The step that writes `text`.
pub fn text_step(text: &str) -> (step: RenderStep)
    ensures
        step@ == RenderStepView::Text(text@),
{
    RenderStep::Text(string_of(&chars_of(text)))
}

/// What to do with the children of a node after the steps on entering it.
#[derive(Debug, Clone, Copy, PartialEq, Eq, Structural)]
pub enum Children {
    /// Render them.
    Render,
    /// Leave them out.
    Skip,
}

/// The steps to write for a table node: on entering it and on leaving it.
/// `row_groups` is the number of the node's children (the header, and the
/// body where the table has one).
pub fn render_table_custom(entering: bool, row_groups: usize) -> (steps: Vec<RenderStep>)
    requires
        entering || row_groups >= 1,
    ensures
        step_views(steps@) == if entering {
            table_open_steps()
        } else {
            table_close_steps(row_groups as nat)
        },
        times_written(step_views(steps@), "</tbody>"@) == if !entering && row_groups > 1 {
            1nat
        } else {
            0nat
        },
{
    let mut steps: Vec<RenderStep> = Vec::new();
    if entering {
        steps.push(RenderStep::LineBreak);
        steps.push(text_step("<table class=\"table\""));
        steps.push(RenderStep::SourcePosition);
        steps.push(text_step(">"));
        assert(step_views(steps@) =~= table_open_steps());
    } else {
        if row_groups > 1 {
            steps.push(RenderStep::LineBreak);
            steps.push(text_step("</tbody>"));
        }
        steps.push(RenderStep::LineBreak);
        steps.push(text_step("</table>"));
        assert(step_views(steps@) =~= table_close_steps(row_groups as nat));
    }
    proof {
        lemma_body_closed_once(row_groups as nat);
    }
    steps
}

} // verus!
