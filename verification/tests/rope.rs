use any_rope::Lipsum;
use any_rope::Lipsum::Adipiscing;
use any_rope::Lipsum::Amet;
use any_rope::Lipsum::Consectur;
use any_rope::Lipsum::Dolor;
use any_rope::Lipsum::Ipsum;
use any_rope::Lipsum::Lorem;
use any_rope::Measurable;
use any_rope::Rope;
use any_rope::RopeBuilder;

/// 70 elements, total width of 135.
fn lorem_ipsum() -> Vec<Lipsum> {
    (0..70)
        .map(|num| match num % 14 {
            0 | 7 => Lorem,
            1 | 8 => Ipsum,
            2 => Dolor(4),
            3 | 10 => Sit,
            4 | 11 => Amet,
            5 => Consectur("hello"),
            6 => Adipiscing(true),
            9 => Dolor(8),
            12 => Consectur("bye"),
            13 => Adipiscing(false),
            _ => unreachable!(),
        })
        .collect()
}

use any_rope::Lipsum::Sit;

fn total_width(v: &[Lipsum]) -> usize {
    v.iter().map(|m| m.width()).sum()
}

struct Lcg(u64);

impl Lcg {
    fn next(&mut self, bound: usize) -> usize {
        self.0 = self.0.wrapping_mul(6364136223846793005).wrapping_add(1442695040888963407);
        ((self.0 >> 33) as usize) % bound.max(1)
    }
}

fn start_boundary(v: &[Lipsum], w: usize) -> usize {
    let mut acc = 0usize;
    for (i, m) in v.iter().enumerate() {
        let mw = m.width();
        if acc + mw > w || (mw == 0 && acc == w) {
            return i;
        }
        acc += mw;
    }
    v.len()
}

fn end_boundary(v: &[Lipsum], w: usize) -> usize {
    let mut acc = 0usize;
    for (i, m) in v.iter().enumerate() {
        let mw = m.width();
        if acc + mw > w {
            return i;
        }
        acc += mw;
    }
    v.len()
}

#[test]
fn rope_builder_01() {
    let mut builder = RopeBuilder::new();
    for _ in 0..5 {
        builder.append_slice(&[Lorem, Ipsum, Dolor(4), Sit, Amet]);
        builder.append_slice(&[Consectur("hello"), Adipiscing(true)]);
        builder.append_slice(&[Lorem, Ipsum, Dolor(8), Sit, Amet]);
        builder.append_slice(&[Consectur("bye"), Adipiscing(false)]);
    }
    let rope = builder.finish();
    assert_eq!(rope.to_vec(), lorem_ipsum());
    assert_eq!(rope.width(), 135);
    rope.assert_integrity();
    rope.assert_invariants();
}

#[test]
fn rope_builder_02() {
    let mut builder = RopeBuilder::new();
    for _ in 0..5 {
        builder.append(Lorem);
        builder.append(Ipsum);
        builder.append(Dolor(4));
        builder.append(Sit);
        builder.append(Amet);
        builder.append_slice(&[Consectur("hello"), Adipiscing(true)]);
        builder.append(Lorem);
        builder.append(Ipsum);
        builder.append(Dolor(8));
        builder.append(Sit);
        builder.append(Amet);
        builder.append_slice(&[Consectur("bye"), Adipiscing(false)]);
    }
    let rope = builder.finish();
    assert_eq!(rope.to_vec(), lorem_ipsum());
    rope.assert_integrity();
    rope.assert_invariants();
}

#[test]
fn rope_builder_default_01() {
    let mut builder = RopeBuilder::default();
    for _ in 0..5 {
        builder.append_slice(&[Lorem, Ipsum, Dolor(4), Sit, Amet]);
        builder.append_slice(&[Consectur("hello"), Adipiscing(true)]);
        builder.append_slice(&[Lorem, Ipsum, Dolor(8), Sit, Amet]);
        builder.append_slice(&[Consectur("bye"), Adipiscing(false)]);
    }
    let rope = builder.finish();
    assert_eq!(rope.to_vec(), lorem_ipsum());
    rope.assert_integrity();
    rope.assert_invariants();
}

#[test]
fn builder_equals_from_slice() {
    let v = lorem_ipsum();
    let mut builder = RopeBuilder::new();
    for m in &v {
        builder.append(*m);
    }
    let built = builder.finish();
    let direct = Rope::from_slice(&v);
    assert_eq!(built.to_vec(), direct.to_vec());
}

#[test]
fn random_inserts_keep_invariants() {
    let mut rng = Lcg(7);
    let mut rope: Rope<Lipsum> = Rope::new();
    let mut model: Vec<Lipsum> = Vec::new();
    for step in 0..500 {
        let el = match rng.next(5) {
            0 => Lorem,
            1 => Ipsum,
            2 => Dolor(rng.next(9)),
            3 => Sit,
            _ => Amet,
        };
        let w = rng.next(rope.width() + 1);
        let k = end_boundary(&model, w);
        rope.insert(w, el);
        model.insert(k, el);
        if step % 25 == 0 || step == 499 {
            rope.assert_integrity();
            rope.assert_invariants();
            assert_eq!(rope.to_vec(), model);
        }
    }
    assert_eq!(rope.len(), 500);
}

#[test]
fn zero_width_boundaries() {
    let rope = Rope::from_slice(&[Sit, Amet, Lorem]);
    assert_eq!(rope.width_to_index_start(0), 0);
    assert_eq!(rope.width_to_index_end(0), 2);
    assert_eq!(rope.index_to_width(2), 0);
    let (chunk, info) = rope.chunk_at_width_last(0);
    assert_eq!(info.len, 0);
    assert_eq!(chunk, &[Sit, Amet, Lorem]);
}

#[test]
fn remove_range_matches_model() {
    let mut rng = Lcg(99);
    let mut v: Vec<Lipsum> = Vec::new();
    for _ in 0..1000 {
        v.push(match rng.next(5) {
            0 => Lorem,
            1 => Ipsum,
            2 => Dolor(rng.next(7)),
            3 => Sit,
            _ => Amet,
        });
    }
    let total = total_width(&v);
    for trial in 0..20 {
        let mut a = rng.next(total + 1);
        let mut b = rng.next(total + 1);
        if a > b {
            std::mem::swap(&mut a, &mut b);
        }
        let mut rope = Rope::from_slice(&v);
        rope.remove(a, b);
        let cs = start_boundary(&v, a);
        let ce = end_boundary(&v, b);
        let mut expect = v[..cs].to_vec();
        expect.extend_from_slice(&v[ce..]);
        assert_eq!(rope.to_vec(), expect, "trial {}", trial);
        rope.assert_integrity();
    }
}

#[test]
fn remove_empty_range_inside_element_is_noop() {
    let mut rope = Rope::from_slice(&[Dolor(5), Lorem]);
    rope.remove(2, 2);
    assert_eq!(rope.to_vec(), vec![Dolor(5), Lorem]);
}

#[test]
fn remove_at_zero_width_run_removes_it() {
    let mut rope = Rope::from_slice(&[Lorem, Sit, Amet, Ipsum]);
    rope.remove(1, 1);
    assert_eq!(rope.to_vec(), vec![Lorem, Ipsum]);
}

#[test]
fn shrink_to_fit() {
    let mut rng = Lcg(12);
    let mut rope: Rope<Lipsum> = Rope::new();
    for _ in 0..400 {
        let w = rng.next(rope.width() + 1);
        rope.insert(w, Dolor(rng.next(6)));
    }
    let before = rope.to_vec();
    rope.shrink_to_fit();
    assert_eq!(rope.to_vec(), before);
    rope.assert_integrity();
    rope.assert_invariants();
}

#[test]
fn split_then_append_reassembles() {
    let v = lorem_ipsum();
    let mut rope = Rope::from_slice(&v);
    let right = rope.split_off(67);
    let mut rejoined = rope;
    rejoined.append(right);
    assert_eq!(rejoined.to_vec(), v);
    rejoined.assert_integrity();
}

#[test]
fn append_depth_mismatch() {
    let small = Rope::from_slice(&[Lorem, Ipsum]);
    let mut big_input: Vec<Lipsum> = Vec::new();
    for i in 0..300 {
        big_input.push(if i % 3 == 0 { Sit } else { Dolor(i % 5) });
    }
    let mut big = Rope::from_slice(&big_input);
    let w_small = small.width();
    let w_big = big.width();
    big.append(small);
    assert_eq!(big.width(), w_small + w_big);
    assert_eq!(big.len(), 302);
    big.assert_integrity();
    big.assert_invariants();
    let mut other = Rope::from_slice(&[Lorem, Ipsum]);
    let big2 = Rope::from_slice(&big_input);
    other.append(big2);
    assert_eq!(other.len(), 302);
    other.assert_integrity();
    other.assert_invariants();
}

#[test]
fn width_index_round_trip() {
    let v = vec![Sit, Lorem, Dolor(3), Amet, Ipsum, Sit, Lorem];
    let rope = Rope::from_slice(&v);
    for i in 0..v.len() {
        if v[i].width() > 0 {
            assert_eq!(rope.width_to_index(rope.index_to_width(i)), i);
        }
    }
}

#[test]
fn duplicate_is_independent() {
    let v = lorem_ipsum();
    let original = Rope::from_slice(&v);
    let mut copy = original.duplicate();
    copy.remove(0, 50);
    copy.insert(0, Dolor(77));
    assert_eq!(original.to_vec(), v);
}

#[test]
fn len_and_width_match_traversal() {
    let v = lorem_ipsum();
    let rope = Rope::from_slice(&v);
    assert_eq!(rope.len(), v.len());
    assert_eq!(rope.width(), total_width(&v));
    let mut walked = 0usize;
    let mut seen_width = 0usize;
    while walked < rope.len() {
        let (chunk, info) = rope.chunk_at_index(walked);
        assert_eq!(info.len as usize, walked);
        walked += chunk.len();
        seen_width += total_width(chunk);
    }
    assert_eq!(walked, rope.len());
    assert_eq!(seen_width, rope.width());
}

#[test]
fn insert_long_slice() {
    let mut rope = Rope::from_slice(&[Lorem, Ipsum]);
    let mut big: Vec<Lipsum> = Vec::new();
    for i in 0..50 {
        big.push(Dolor(i % 4));
    }
    rope.insert_slice(1, &big);
    let mut expect = vec![Lorem];
    expect.extend_from_slice(&big);
    expect.push(Ipsum);
    assert_eq!(rope.to_vec(), expect);
    rope.assert_integrity();
    rope.assert_invariants();
}

#[test]
fn compact_keeps_neighbours_full() {
    let mut rope: Rope<Lipsum> = Rope::new();
    let mut model: Vec<Lipsum> = Vec::new();
    for i in 0..200 {
        let w = rope.width();
        rope.insert(w, Dolor(1 + i % 3));
        model.push(Dolor(1 + i % 3));
    }
    for _ in 0..180 {
        let w = total_width(&model);
        if w < 2 {
            break;
        }
        rope.remove(w - 2, w);
        let cs = start_boundary(&model, w - 2);
        let ce = end_boundary(&model, w);
        let tail = model.split_off(ce);
        model.truncate(cs);
        model.extend_from_slice(&tail);
    }
    assert_eq!(rope.to_vec(), model);
    rope.assert_integrity();
}
