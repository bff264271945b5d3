use cot_site::rendering::{render_table_custom, RenderStep};

fn texts(steps: &[RenderStep]) -> Vec<String> {
    steps
        .iter()
        .map(|s| match s {
            RenderStep::LineBreak => "\n".to_string(),
            RenderStep::Text(t) => t.clone(),
            RenderStep::Escaped(t) => format!("escaped {t}"),
            RenderStep::Address(t) => format!("address {t}"),
            RenderStep::SourcePosition => "@".to_string(),
        })
        .collect()
}

fn body_closes(steps: &[RenderStep]) -> usize {
    steps
        .iter()
        .filter(|s| matches!(s, RenderStep::Text(t) if t == "</tbody>"))
        .count()
}

#[test]
fn a_table_opens_with_its_style_class() {
    for row_groups in [0, 1, 2, 5] {
        let steps = render_table_custom(true, row_groups);
        assert_eq!(
            texts(&steps),
            vec!["\n", "<table class=\"table\"", "@", ">"]
        );
        assert_eq!(body_closes(&steps), 0);
    }
}

#[test]
fn a_table_of_a_header_alone_closes_no_body() {
    let steps = render_table_custom(false, 1);
    assert_eq!(texts(&steps), vec!["\n", "</table>"]);
    assert_eq!(body_closes(&steps), 0);
}

#[test]
fn a_table_with_a_body_closes_it_once() {
    for row_groups in [2, 3, usize::MAX] {
        let steps = render_table_custom(false, row_groups);
        assert_eq!(texts(&steps), vec!["\n", "</tbody>", "\n", "</table>"]);
        assert_eq!(body_closes(&steps), 1);
    }
}
