use matmul_engine::fib::{fibonacci, process_shared_buffer, MAX_INDEX};

#[test]
fn first_fibonacci_numbers() {
    let want = [0u32, 1, 1, 2, 3, 5, 8, 13, 21, 34, 55];
    for (n, value) in want.iter().enumerate() {
        assert_eq!(fibonacci(n as u32), *value);
    }
    assert_eq!(fibonacci(30), 832040);
    assert_eq!(MAX_INDEX, 47);
}

#[test]
fn buffer_is_replaced_cell_by_cell() {
    let mut cells = [0u32, 1, 2, 10, 20, 5];
    process_shared_buffer(&mut cells);
    assert_eq!(cells, [0, 1, 1, 55, 6765, 5]);
    let mut none: [u32; 0] = [];
    process_shared_buffer(&mut none);
    assert_eq!(none.len(), 0);
}
