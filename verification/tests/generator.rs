use futoshiki_core::futoshiki::Puzzle;
use futoshiki_core::generator::{generate, Difficulty};

fn count_hints(puzzle: &Puzzle) -> usize {
    puzzle.grid.iter().filter(|&&x| x != -1).count()
}

#[test]
fn test_easy_hint_range() {
    let (min, max) = Difficulty::Easy.hint_range();
    for _ in 0..5 {
        let puzzle = generate("Easy").expect("generation failed");
        let hints = count_hints(&puzzle);
        assert!(
            hints >= min && hints <= max,
            "Easy: hints={} not in range [{}, {}]",
            hints,
            min,
            max
        );
    }
}

#[test]
fn test_normal_hint_range() {
    let (min, max) = Difficulty::Normal.hint_range();
    for _ in 0..5 {
        let puzzle = generate("Normal").expect("generation failed");
        let hints = count_hints(&puzzle);
        assert!(
            hints >= min && hints <= max,
            "Normal: hints={} not in range [{}, {}]",
            hints,
            min,
            max
        );
    }
}

#[test]
fn test_hard_hint_range() {
    let (min, max) = Difficulty::Hard.hint_range();
    for _ in 0..5 {
        let puzzle = generate("Hard").expect("generation failed");
        let hints = count_hints(&puzzle);
        assert!(
            hints >= min && hints <= max,
            "Hard: hints={} not in range [{}, {}]",
            hints,
            min,
            max
        );
    }
}

#[test]
fn test_expert_hint_range() {
    let (min, max) = Difficulty::Expert.hint_range();
    for _ in 0..5 {
        let puzzle = generate("Expert").expect("generation failed");
        let hints = count_hints(&puzzle);
        assert!(
            hints >= min && hints <= max,
            "Expert: hints={} not in range [{}, {}]",
            hints,
            min,
            max
        );
    }
}

#[test]
fn test_difficulty_ranges_no_overlap() {
    let easy = Difficulty::Easy.hint_range();
    let normal = Difficulty::Normal.hint_range();
    let hard = Difficulty::Hard.hint_range();
    let expert = Difficulty::Expert.hint_range();

    assert!(easy.0 > normal.1, "Easy and Normal ranges overlap");
    assert!(normal.0 > hard.1, "Normal and Hard ranges overlap");
    assert!(hard.0 > expert.1, "Hard and Expert ranges overlap");
}

#[test]
fn test_classic_no_hints() {
    for _ in 0..3 {
        let puzzle = generate("Classic").expect("generation failed");
        let hints = count_hints(&puzzle);
        assert_eq!(hints, 0, "Classic should have 0 hints, got {}", hints);

        let inter_count = puzzle
            .constraints
            .iter()
            .filter(|iq| !iq.is_intra_block())
            .count();
        let total_inter = 72;
        let ratio = inter_count as f64 / total_inter as f64;
        assert!(ratio <= 1.0, "Classic inter-block ratio too high: {:.2}", ratio);
    }
}

#[test]
fn test_hint_distribution() {
    for (name, difficulty_str) in [
        ("Easy", "Easy"),
        ("Normal", "Normal"),
        ("Hard", "Hard"),
        ("Expert", "Expert"),
    ] {
        let (min, max) = Difficulty::from_str(difficulty_str).hint_range();
        let mut all_hints: Vec<usize> = Vec::new();
        let mut out_of_range = 0;

        for _ in 0..20 {
            let puzzle = generate(difficulty_str).expect("generation failed");
            let hints = count_hints(&puzzle);
            all_hints.push(hints);
            if hints < min || hints > max {
                out_of_range += 1;
            }
        }

        let avg: f64 = all_hints.iter().sum::<usize>() as f64 / all_hints.len() as f64;
        let min_h = *all_hints.iter().min().unwrap();
        let max_h = *all_hints.iter().max().unwrap();

        println!(
            "{}: range=[{}, {}], actual=[{}, {}], avg={:.1}, out_of_range={}/20",
            name, min, max, min_h, max_h, avg, out_of_range
        );

        assert_eq!(
            out_of_range, 0,
            "{}: {} puzzles out of range [{}, {}], actual range [{}, {}]",
            name, out_of_range, min, max, min_h, max_h
        );
    }
}
