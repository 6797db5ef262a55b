use flatgfa::file::{dump, load, view};
use flatgfa::flatgfa::FlatGFA;
use flatgfa::parse::Parser;
use flatgfa::print::print;

/// A small generator of numbers, the same on every run.
struct Numbers(u64);

impl Numbers {
    fn next(&mut self, below: u64) -> u64 {
        self.0 = self.0.wrapping_mul(6364136223846793005).wrapping_add(1442695040888963407);
        (self.0 >> 33) % below
    }
}

fn bases(numbers: &mut Numbers) -> String {
    let len = numbers.next(12);
    (0..len).map(|_| ['A', 'C', 'G', 'T'][numbers.next(4) as usize]).collect()
}

fn alignment(numbers: &mut Numbers) -> String {
    let runs = numbers.next(4);
    if runs == 0 {
        return String::from(if numbers.next(2) == 0 { "*" } else { "" });
    }
    (0..runs)
        .map(|_| format!("{}{}", numbers.next(300), ['M', 'N', 'D', 'I'][numbers.next(4) as usize]))
        .collect()
}

fn orientation(numbers: &mut Numbers) -> char {
    if numbers.next(2) == 0 {
        '+'
    } else {
        '-'
    }
}

/// A text with the given number of segments, named in a mixed order, and
/// links and paths between them, in some order of lines.
fn text(numbers: &mut Numbers, segments: u64) -> String {
    let mut names: Vec<u64> = (1..=segments).collect();
    if numbers.next(2) == 0 {
        for i in 0..names.len() {
            let j = numbers.next(names.len() as u64) as usize;
            names.swap(i, j);
        }
        if numbers.next(2) == 0 {
            for name in names.iter_mut() {
                *name = *name * 7 + 3;
            }
        }
    }
    let sep = if numbers.next(2) == 0 { '\t' } else { ' ' };
    let mut lines: Vec<String> = vec![];
    if numbers.next(2) == 0 {
        lines.push(format!("H{}VN:Z:1.{}", sep, numbers.next(9)));
    }
    for name in names.iter() {
        let mut line = format!("S{}{}{}{}", sep, name, sep, bases(numbers));
        if numbers.next(3) == 0 {
            line.push_str(&format!("{}LN:i:{}", sep, numbers.next(50)));
        }
        lines.push(line);
    }
    if !names.is_empty() {
        for _ in 0..numbers.next(6) {
            let from = names[numbers.next(names.len() as u64) as usize];
            let to = names[numbers.next(names.len() as u64) as usize];
            lines.push(format!(
                "L{s}{}{s}{}{s}{}{s}{}{s}{}",
                from,
                orientation(numbers),
                to,
                orientation(numbers),
                alignment(numbers),
                s = sep
            ));
        }
        for p in 0..numbers.next(4) {
            let steps: Vec<String> = (0..numbers.next(5))
                .map(|_| {
                    format!(
                        "{}{}",
                        names[numbers.next(names.len() as u64) as usize],
                        orientation(numbers)
                    )
                })
                .collect();
            let overlaps: Vec<String> = (0..numbers.next(4)).map(|_| alignment(numbers)).collect();
            let overlaps = if overlaps.is_empty() { String::from("*") } else { overlaps.join(",") };
            lines.push(format!("P{s}path{}{s}{}{s}{}", p, steps.join(","), overlaps, s = sep));
        }
    }
    // Move links and paths in front of some of the segments.
    for i in 0..lines.len() {
        if !lines[i].starts_with('H') && numbers.next(3) == 0 {
            let j = numbers.next(lines.len() as u64) as usize;
            if !lines[j].starts_with('H') {
                lines.swap(i, j);
            }
        }
    }
    let mut text = lines.join("\n");
    if numbers.next(2) == 0 && !text.is_empty() {
        text.push('\n');
    }
    text
}

fn same_graph(a: &FlatGFA, b: &FlatGFA) {
    assert_eq!(a.header, b.header);
    assert_eq!(a.segs, b.segs);
    assert_eq!(a.paths, b.paths);
    assert_eq!(a.links, b.links);
    assert_eq!(a.steps, b.steps);
    assert_eq!(a.seqdata, b.seqdata);
    assert_eq!(a.overlaps, b.overlaps);
    assert_eq!(a.alignment, b.alignment);
    assert_eq!(a.namedata, b.namedata);
    assert_eq!(a.optional_data, b.optional_data);
    assert_eq!(a.line_order, b.line_order);
}

#[test]
fn generated_texts_go_round() {
    let mut numbers = Numbers(20240229);
    for round in 0..300 {
        let text = text(&mut numbers, round % 9);
        let gfa = Parser::parse(text.as_bytes()).unwrap();
        assert!(gfa.is_valid());
        assert_eq!(
            gfa.line_order.len(),
            text.split('\n').filter(|line| !line.is_empty()).count()
        );
        // Text, graph, text, graph.
        let printed = print(&gfa.as_view()).unwrap();
        let again = Parser::parse(&printed).unwrap();
        same_graph(&gfa, &again);
        assert_eq!(print(&again.as_view()).unwrap(), printed);
        // Graph, bytes, graph.
        let image = dump(&gfa.as_view());
        same_graph(&gfa, &load(&image).unwrap());
        let mapped = view(&image).unwrap();
        assert_eq!(dump(&mapped), image);
        assert_eq!(print(&mapped).unwrap(), printed);
    }
}

#[test]
fn generated_damage_is_never_read_as_another_graph() {
    let mut numbers = Numbers(7);
    let gfa = Parser::parse(b"H\tv\nS\t1\tACGT\nS\t2\tGG\tx\nL\t1\t+\t2\t-\t3M\nP\tp\t1+,2-\t1M,*\n")
        .unwrap();
    let image = dump(&gfa.as_view());
    for _ in 0..2000 {
        let mut damaged = image.clone();
        let at = numbers.next(176) as usize;
        damaged[at] ^= 1 << numbers.next(8);
        // A damaged table is refused, or the block still holds a graph that
        // is written back as the damaged block.
        if let Ok(back) = load(&damaged) {
            let rewritten = dump(&back.as_view());
            let again = load(&rewritten).unwrap();
            same_graph(&back, &again);
        }
    }
}
