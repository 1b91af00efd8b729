use jverb::{ConfigError, DelayLine};

/// A line wrapped in its own feedback loop: the previous output is added to
/// the next input, and the line's output is scaled by `gain`.
struct FeedbackLoop {
    line: DelayLine<f32>,
    value: f32,
    gain: f32,
}

impl FeedbackLoop {
    fn tick(&mut self, input: f32) -> f32 {
        let fback = input + self.value;
        let output = self.line.tick(fback) * self.gain;
        self.value = output;
        output
    }
}

#[test]
fn test_delay() {
    let mut delay = DelayLine::new(10, 10, 0.0f32).unwrap();

    assert_eq!(delay.tick(1.0), 0.0);

    for _i in 0..10 {
        delay.tick(1.0);
    }

    assert_eq!(delay.tick(1.0), 1.0);

    for _i in 0..10 {
        delay.tick(0.0);
    }

    assert_eq!(delay.tick(1.0), 0.0);
}

#[test]
fn test_delay_entire_buffer() {
    let mut delay = DelayLine::new(10, 1, 0.0f32).unwrap();

    for i in 0..10 {
        delay.tick(i as f32);
    }

    assert_eq!(delay.tick(1.0), 9.0);
    assert_eq!(delay.tick(1.0), 1.0);
}

#[test]
fn test_change_delay() {
    let mut delay = DelayLine::new(10, 1, 0.0f32).unwrap();

    for i in 0..10 {
        delay.tick(i as f32);
    }

    assert_eq!(delay.tick(1.0), 9.0);

    delay.set_delay(2);
    assert_eq!(delay.tick(0.5), 1.0);
    assert_eq!(delay.tick(0.25), 0.0);
    assert_eq!(delay.tick(0.1), 0.5);
    assert_eq!(delay.tick(0.01), 0.25);
}

#[test]
fn test_feedback() {
    let line = DelayLine::new(10, 1, 0.0f32).unwrap();
    let mut feedback = FeedbackLoop { line, value: 0.0, gain: 0.5 };

    assert_eq!(feedback.tick(1.0), 0.0);
    assert_eq!(feedback.tick(1.0), 0.5);
    assert_eq!(feedback.tick(1.0), 0.5);
    assert_eq!(feedback.tick(1.0), 0.75);
    assert_eq!(feedback.tick(1.0), 0.75);
    assert_eq!(feedback.tick(1.0), 0.875);
}

#[test]
fn test_feedback_change_gain() {
    let line = DelayLine::new(10, 1, 0.0f32).unwrap();
    let mut feedback = FeedbackLoop { line, value: 0.0, gain: 0.5 };

    assert_eq!(feedback.tick(1.0), 0.0);
    assert_eq!(feedback.tick(1.0), 0.5);

    feedback.gain = 1.0;

    assert_eq!(feedback.tick(1.0), 1.0);
    assert_eq!(feedback.tick(1.0), 1.5);
    assert_eq!(feedback.tick(1.0), 2.0);
}

#[test]
fn zero_capacity_is_refused() {
    assert!(matches!(DelayLine::new(0, 1, 0.0f32), Err(ConfigError::ZeroCapacity)));
    assert!(matches!(DelayLine::new(0, 0, 0u8), Err(ConfigError::ZeroCapacity)));
}

#[test]
fn new_clamps_delay_to_capacity() {
    let line = DelayLine::new(4, 9, 0i32).unwrap();
    assert_eq!(line.delay(), 4);
    assert_eq!(line.capacity(), 4);
    assert_eq!(line.cursor(), 0);
}

#[test]
fn set_delay_clamps_below_capacity() {
    let mut line = DelayLine::new(10, 1, 0i32).unwrap();
    line.set_delay(50);
    assert_eq!(line.delay(), 9);
    line.set_delay(9);
    assert_eq!(line.delay(), 9);
}

#[test]
fn impulse_returns_after_delay() {
    for &(capacity, delay) in &[(16usize, 5usize), (5, 5), (8, 1)] {
        let mut line = DelayLine::new(capacity, delay, 0.0f32).unwrap();
        for k in 0..2 * delay {
            let input = if k == 0 { 1.0 } else { 0.0 };
            let expected = if k == delay { 1.0 } else { 0.0 };
            assert_eq!(line.tick(input), expected, "capacity {} delay {} tick {}", capacity, delay, k);
        }
    }
}

#[test]
fn delayed_input_comes_back_in_order() {
    let mut line = DelayLine::new(8, 3, 0i32).unwrap();
    let mut outputs = Vec::new();
    for k in 1..=9 {
        outputs.push(line.tick(k));
    }
    assert_eq!(outputs, vec![0, 0, 0, 1, 2, 3, 4, 5, 6]);
}

#[test]
fn shrinking_silences_the_dropped_positions() {
    let mut line = DelayLine::new(8, 6, 0i32).unwrap();
    for k in 1..=6 {
        assert_eq!(line.tick(k), 0);
    }
    assert_eq!(line.cursor(), 0);

    line.set_delay(2);
    assert_eq!(line.tick(10), 1);
    assert_eq!(line.tick(20), 2);
    assert_eq!(line.tick(30), 10);
    assert_eq!(line.tick(40), 20);

    // Growing back reads the positions that the shrink silenced, not 3..6.
    line.set_delay(6);
    let outputs: Vec<i32> = (0..6).map(|_| line.tick(0)).collect();
    assert_eq!(outputs, vec![30, 40, 0, 0, 0, 0]);
}

#[test]
fn shrink_below_cursor_restarts_the_ring() {
    let mut line = DelayLine::new(8, 6, 0i32).unwrap();
    for k in 1..=10 {
        line.tick(k);
    }
    // Buffer holds 7 8 9 10 5 6, cursor at 4.
    assert_eq!(line.cursor(), 4);
    line.set_delay(2);
    assert_eq!(line.delay(), 2);
    assert_eq!(line.cursor(), 0);
    assert_eq!(line.tick(100), 7);
    assert_eq!(line.tick(200), 8);
    assert_eq!(line.tick(300), 100);
    assert_eq!(line.tick(400), 200);

    // Growing keeps a cursor that is already inside the ring.
    line.tick(500);
    assert_eq!(line.cursor(), 1);
    line.set_delay(5);
    assert_eq!(line.cursor(), 1);
}

#[test]
fn cursor_stays_below_the_delay() {
    let mut line = DelayLine::new(8, 6, 0i32).unwrap();
    for k in 1..=4 {
        line.tick(k);
    }
    assert_eq!(line.cursor(), 4);
    line.set_delay(4);
    assert_eq!(line.cursor(), 0);
    line.tick(9);
    line.set_delay(0);
    assert_eq!(line.delay(), 0);
    assert_eq!(line.cursor(), 0);
    // The shrink silenced position 0; a delay of zero keeps a ring of one
    // sample.
    assert_eq!(line.tick(11), 0);
    assert_eq!(line.tick(12), 11);
    assert_eq!(line.cursor(), 0);
}

#[test]
fn set_max_delay_grows_with_silence_and_shrinks() {
    let mut line = DelayLine::new(4, 3, 0i32).unwrap();
    for k in 1..=3 {
        line.tick(k);
    }
    line.set_max_delay(8);
    assert_eq!(line.capacity(), 8);
    assert_eq!(line.delay(), 3);
    line.set_delay(7);
    assert_eq!(line.delay(), 7);
    let outputs: Vec<i32> = (0..7).map(|_| line.tick(0)).collect();
    assert_eq!(outputs, vec![1, 2, 3, 0, 0, 0, 0]);

    line.set_delay(2);
    line.set_max_delay(3);
    assert_eq!(line.capacity(), 3);
    assert_eq!(line.delay(), 2);
}

#[test]
fn reset_silences_and_keeps_cursor() {
    let mut line = DelayLine::new(6, 4, 0i32).unwrap();
    for k in 1..=6 {
        line.tick(k);
    }
    let cursor = line.cursor();
    line.reset();
    assert_eq!(line.cursor(), cursor);
    assert_eq!(line.delay(), 4);
    for _ in 0..4 {
        assert_eq!(line.tick(9), 0);
    }
}
