use chtholly::ChthollyTree;

const V_MAX_BOUND: usize = 1_000_000_000;
const SEED_MAX: usize = 1_000_000_007;

struct Cf896cRng(usize);

impl Cf896cRng {
    fn next(&mut self) -> usize {
        let ret = self.0;
        self.0 = (self.0 * 7 + 13) % SEED_MAX;
        ret
    }
}

#[derive(Clone)]
enum Op {
    Add(usize, usize, usize),
    Assign(usize, usize, usize),
    Nth(usize, usize, usize),
    PowSum(usize, usize, usize, usize),
}

fn random_array(n: usize, vmax: usize, rng: &mut Cf896cRng) -> Vec<usize> {
    assert!(vmax <= V_MAX_BOUND);
    let mut ret = Vec::new();
    for _ in 0..n {
        ret.push(rng.next() % vmax + 1);
    }
    ret
}

fn random_ops(n: usize, m: usize, vmax: usize, rng: &mut Cf896cRng) -> Vec<Op> {
    assert!(vmax <= V_MAX_BOUND);
    let mut ret = Vec::new();
    for _ in 0..m {
        let opi = rng.next() % 4 + 1;
        let (l, r) = {
            let l = rng.next() % n + 1;
            let r = rng.next() % n + 1;
            if l > r {
                (r, l)
            } else {
                (l, r)
            }
        };
        let x = if opi == 3 {
            rng.next() % (r - l + 1) + 1
        } else {
            rng.next() % vmax + 1
        };
        let op = match opi {
            1 => Op::Add(l, r, x),
            2 => Op::Assign(l, r, x),
            3 => Op::Nth(l, r, x),
            4 => {
                let y = rng.next() % vmax + 1;
                Op::PowSum(l, r, x, y)
            }
            _ => unreachable!("opi is modulo 4 plus 1"),
        };
        ret.push(op);
    }
    ret
}

fn test_vector(n: usize, m: usize, seed: usize, vmax: usize, expected: Vec<usize>) {
    let mut rng = Cf896cRng(seed);
    let array = random_array(n, vmax, &mut rng);
    let ops = random_ops(n, m, vmax, &mut rng);
    let mut tree = ChthollyTree::from_slice(&array);
    let mut output = Vec::new();
    for op in ops.clone() {
        match op {
            Op::Add(l, r, x) => {
                tree.add(l - 1, r - 1, x);
            }
            Op::Assign(l, r, x) => {
                tree.merge(l - 1, r - 1, x);
            }
            Op::Nth(l, _r, x) => {
                let n = tree.nth(l - 1, x - 1).expect("Vector test failed to find n");
                output.push(n);
            }
            Op::PowSum(l, r, x, y) => {
                let z = tree.pow_sum(l - 1, r - 1, x as u32, y);
                output.push(z);
            }
        }
    }
    assert_eq!(output, expected);
}

#[test]
fn vector1() {
    test_vector(10, 10, 7, 9, vec![2, 1, 0, 3]);
}

#[test]
fn vector2() {
    test_vector(10, 10, 9, 9, vec![1, 1, 3, 3]);
}
