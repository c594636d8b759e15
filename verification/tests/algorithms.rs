use lib::crc32::{crc32_bitwise, crc32_table, make_table};
use lib::floyd::{dijkstra, floyd_warshall, graph, INF, N};
use lib::hanoi::{moves_legal, replay, solve, Move};
use lib::matmul::{example_inputs, multiply, M};
use lib::msort::merge_sort;
use lib::numerics::{factorial, fib_iterative, fib_recursive, gcd_iterative, gcd_recursive, mod_pow};
use lib::sieve::{main_sieve, LIMIT};

#[test]
fn crc32_canonical_vectors() {
    let table = make_table();
    let vectors: [(&[u8], u32); 4] = [
        (b"", 0x0000_0000),
        (b"123456789", 0xCBF4_3926),
        (b"The quick brown fox jumps over the lazy dog", 0x414F_A339),
        (b"a", 0xE8B7_BE43),
    ];
    for (data, expected) in vectors {
        assert_eq!(crc32_bitwise(data), expected);
        assert_eq!(crc32_table(&table, data), expected);
    }
}

#[test]
fn crc32_table_entries() {
    let table = make_table();
    assert_eq!(table[0], 0);
    assert_eq!(table[1], 0x7707_3096);
    assert_eq!(table[255], 0x2D02_EF8D);
}

#[test]
fn crc32_methods_agree_on_many_inputs() {
    let table = make_table();
    let mut data: Vec<u8> = Vec::new();
    for k in 0..300u32 {
        data.push((k.wrapping_mul(37) ^ (k >> 3)) as u8);
        assert_eq!(crc32_bitwise(&data), crc32_table(&table, &data));
    }
}

#[test]
fn floyd_anchor_row() {
    let fw = floyd_warshall(graph());
    assert_eq!(fw[0], [0, 7, 9, 20, 20, 11]);
}

#[test]
fn floyd_and_dijkstra_agree() {
    let w = graph();
    let fw = floyd_warshall(w);
    for src in 0..N {
        let dj = dijkstra(&w, src);
        assert_eq!(fw[src], dj, "source {src}");
    }
}

#[test]
fn graph_matrix_shape() {
    let w = graph();
    for i in 0..N {
        assert_eq!(w[i][i], 0);
    }
    assert_eq!(w[0][1], 7);
    assert_eq!(w[2][5], 2);
    assert_eq!(w[1][0], INF);
}

#[test]
fn dijkstra_unreachable_is_inf() {
    let w = graph();
    // Nothing leads back into vertex 0.
    for src in 1..N {
        assert_eq!(dijkstra(&w, src)[0], INF);
    }
}

#[test]
fn floyd_on_disconnected_matrix() {
    let mut w = [[INF; N]; N];
    for i in 0..N {
        w[i][i] = 0;
    }
    w[3][4] = 5;
    let fw = floyd_warshall(w);
    assert_eq!(fw[3][4], 5);
    assert_eq!(fw[4][3], INF);
    assert_eq!(dijkstra(&w, 3)[4], 5);
}

#[test]
fn hanoi_ten_disks() {
    let mut moves: Vec<Move> = Vec::new();
    solve(10, 0, 2, 1, &mut moves);
    assert_eq!(moves.len() as u64, (1u64 << 10) - 1);
    let pegs = replay(10, &moves);
    assert!(pegs[0].is_empty());
    assert!(pegs[1].is_empty());
    let target: Vec<u32> = (1..=10).rev().collect();
    assert_eq!(pegs[2], target);
}

#[test]
fn hanoi_small_cases() {
    let mut moves: Vec<Move> = Vec::new();
    solve(0, 0, 2, 1, &mut moves);
    assert!(moves.is_empty());
    solve(2, 0, 2, 1, &mut moves);
    assert_eq!(moves, vec![(0, 1), (0, 2), (1, 2)]);
    let pegs = replay(2, &moves);
    assert_eq!(pegs[2], vec![2, 1]);
}

#[test]
fn merge_sort_reverse_input() {
    let input: Vec<i32> = (0..16).rev().collect();
    let sorted = merge_sort(&input);
    let expected: Vec<i32> = (0..16).collect();
    assert_eq!(sorted, expected);
}

#[test]
fn merge_sort_edge_cases() {
    assert_eq!(merge_sort(&[]), Vec::<i32>::new());
    assert_eq!(merge_sort(&[5]), vec![5]);
    assert_eq!(merge_sort(&[3, -1, 3, 0, -7]), vec![-7, -1, 0, 3, 3]);
}

#[test]
fn gcd_known_values() {
    let cases = [(48u64, 18u64, 6u64), (1071, 462, 21), (17, 5, 1), (100, 0, 100)];
    for (a, b, want) in cases {
        assert_eq!(gcd_recursive(a, b), want);
        assert_eq!(gcd_iterative(a, b), want);
    }
    assert_eq!(gcd_iterative(0, 0), 0);
}

#[test]
fn fibonacci_values() {
    for n in 0..=20u32 {
        assert_eq!(fib_iterative(n), fib_recursive(n));
    }
    assert_eq!(fib_iterative(20), 6765);
    assert_eq!(fib_iterative(50), 12_586_269_025);
    assert_eq!(fib_iterative(0), 0);
    assert_eq!(fib_iterative(1), 1);
}

#[test]
fn factorial_values() {
    assert_eq!(factorial(0), 1);
    assert_eq!(factorial(10), 3_628_800);
    assert_eq!(factorial(20), 2_432_902_008_176_640_000);
}

#[test]
fn mod_pow_values() {
    assert_eq!(mod_pow(7, 256, 13), 9);
    assert_eq!(mod_pow(2, 10, 1000), 24);
    for a in 2..=12u64 {
        assert_eq!(mod_pow(a, 12, 13), 1);
    }
    assert_eq!(mod_pow(5, 0, 7), 1);
    assert_eq!(mod_pow(5, 3, 1), 0);
}

#[test]
fn sieve_primes() {
    let primes = main_sieve();
    assert_eq!(primes.len(), 1229);
    assert_eq!(&primes[..6], &[2, 3, 5, 7, 11, 13]);
    assert_eq!(*primes.last().unwrap(), 9973);
    assert!(primes.iter().all(|&p| p <= LIMIT));
}

#[test]
fn matmul_example() {
    let (a, b) = example_inputs();
    assert_eq!(a[2][5], 3);
    assert_eq!(b[2][5], 6);
    let c = multiply(&a, &b);
    for i in 0..M {
        for j in 0..M {
            assert_eq!(c[i][j], 8 * (i as i32 + 1) * (j as i32 + 1));
        }
    }
}

#[test]
fn matmul_general() {
    let mut a = [[0i32; M]; M];
    let mut b = [[0i32; M]; M];
    for i in 0..M {
        a[i][i] = 1;
        for j in 0..M {
            b[i][j] = (i * M + j) as i32 - 20;
        }
    }
    assert_eq!(multiply(&a, &b), b);
    a[0][1] = 2;
    assert_eq!(multiply(&a, &b)[0][3], b[0][3] + 2 * b[1][3]);
}

#[test]
fn gcd_divides_and_is_greatest() {
    for (a, b) in [(1071u64, 462u64), (48, 18), (270, 192), (7, 0), (0, 9)] {
        let g = gcd_iterative(a, b);
        assert_eq!(a % g, 0);
        assert_eq!(b % g, 0);
        for d in 1..=a.max(b) {
            if a % d == 0 && b % d == 0 {
                assert_eq!(g % d, 0);
            }
        }
    }
}

#[test]
fn hanoi_legality_check() {
    let mut moves: Vec<Move> = Vec::new();
    solve(5, 0, 2, 1, &mut moves);
    assert!(moves_legal(5, &moves));
    assert!(moves_legal(3, &[]));
    assert!(!moves_legal(3, &[(1, 2)]));
    assert!(!moves_legal(3, &[(0, 3)]));
    assert!(!moves_legal(3, &[(0, 1), (0, 1)]));
    assert!(moves_legal(3, &[(0, 1), (0, 2), (1, 2), (0, 0)]));
    assert!(!moves_legal(0, &[(0, 0)]));
}

#[test]
fn floyd_distances_form_a_metric() {
    let w = graph();
    let fw = floyd_warshall(w);
    for i in 0..N {
        assert_eq!(fw[i][i], 0);
        for j in 0..N {
            assert!(fw[i][j] <= w[i][j]);
            for m in 0..N {
                assert!(fw[i][j] <= fw[i][m] + fw[m][j]);
            }
        }
    }
}
