use postflop_solver::MutexLike;

#[test]
fn mutex_like_reads_and_writes() {
    let mut m = MutexLike::new(vec![1, 2, 3]);
    assert_eq!(*m.lock().get(), vec![1, 2, 3]);
    m.get_mut().push(4);
    assert_eq!(m.lock().get().len(), 4);
    assert_eq!(m.into_inner(), vec![1, 2, 3, 4]);
}
