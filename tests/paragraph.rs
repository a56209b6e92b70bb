use text_layout::{FirstFit, Fixed, Item, KnuthPlass};

const TEXT: &str = "  Far out in the uncharted backwaters of the unfashionable end of the western spiral arm of the Galaxy lies a small unregarded yellow sun. Orbiting this at a distance of roughly ninety-two million miles is an utterly insignificant little blue-green planet whose ape-descended life forms are so amazingly primitive that they still think digital watches are a pretty neat idea.";

/// One unit-wide box per character, unit glue for whitespace, closed by
/// infinite-stretch glue and a forced break.
fn items_of(text: &str) -> Vec<Item> {
    let mut items = Vec::new();
    for c in text.chars() {
        if c.is_whitespace() && !items.is_empty() {
            items.push(Item::Glue { width: Fixed::from_num(1), stretch: Fixed::from_num(1), shrink: Fixed::from_num(0) });
        } else {
            items.push(Item::Box { width: Fixed::from_num(1) });
        }
    }
    items.push(Item::Glue { width: Fixed::from_num(0), stretch: Fixed::max_value(), shrink: Fixed::from_num(0) });
    items.push(Item::Penalty { width: Fixed::from_num(0), cost: Fixed::min_value(), flagged: true });
    items
}

/// Cuts the text at the breaks; the character at each break is dropped.
fn render(text: &str, breaks: &[usize]) -> Vec<String> {
    let chars: Vec<char> = text.chars().collect();
    let mut lines = Vec::new();
    let mut start = 0;
    for &b in breaks {
        let end = b.min(chars.len());
        lines.push(chars[start..end].iter().collect::<String>());
        start = (b + 1).min(chars.len());
    }
    lines
}

#[test]
fn optimal_paragraph_in_eighty_columns() {
    let items = items_of(TEXT);
    let kp = KnuthPlass::new().with_threshold(Fixed::max_value());
    let lines = kp.layout(&items, Fixed::from_num(80));
    let breaks: Vec<usize> = lines.iter().map(|l| l.break_at).collect();
    let rendered = render(TEXT, &breaks);
    assert_eq!(
        rendered,
        vec![
            "  Far out in the uncharted backwaters of the unfashionable end of the western",
            "spiral arm of the Galaxy lies a small unregarded yellow sun. Orbiting this at a",
            "distance of roughly ninety-two million miles is an utterly insignificant little",
            "blue-green planet whose ape-descended life forms are so amazingly primitive that",
            "they still think digital watches are a pretty neat idea.",
        ]
    );
}

#[test]
fn greedy_paragraph_in_eighty_columns() {
    let items = items_of(TEXT);
    let ff = FirstFit::new().with_threshold(Fixed::max_value());
    let lines = ff.layout(&items, Fixed::from_num(80));
    assert!(!lines.is_empty());
    let breaks: Vec<usize> = lines.iter().map(|l| l.break_at).collect();
    for line in render(TEXT, &breaks) {
        assert!(line.chars().count() <= 80);
    }
    assert_eq!(*breaks.last().unwrap(), items.len() - 1);
}
