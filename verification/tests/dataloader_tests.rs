use dezero::dataloader::{DataLoader, SeqDataLoader};
use rand::SeedableRng;
use rand_chacha::ChaCha8Rng;

fn epoch(loader: &mut DataLoader) -> Vec<Vec<usize>> {
    let mut e = loader.start_epoch();
    let mut batches = Vec::new();
    while let Some(b) = loader.next_batch(&mut e) {
        batches.push(b);
    }
    assert!(loader.next_batch(&mut e).is_none());
    batches
}

#[test]
fn unshuffled_batches_follow_the_data() {
    let mut loader = DataLoader::new(7, 3, false, ChaCha8Rng::seed_from_u64(0));
    assert_eq!(epoch(&mut loader), vec![vec![0, 1, 2], vec![3, 4, 5], vec![6]]);
    assert_eq!(epoch(&mut loader), vec![vec![0, 1, 2], vec![3, 4, 5], vec![6]]);
}

#[test]
fn shuffled_epochs_visit_every_item_once() {
    let mut loader = DataLoader::new(10, 4, true, ChaCha8Rng::seed_from_u64(42));
    let first = epoch(&mut loader);
    let second = epoch(&mut loader);
    for batches in [&first, &second] {
        assert_eq!(batches.iter().map(|b| b.len()).collect::<Vec<_>>(), vec![4, 4, 2]);
        let mut all: Vec<usize> = batches.concat();
        all.sort();
        assert_eq!(all, (0..10).collect::<Vec<_>>());
    }
    // the order is shuffled, and reshuffled at the next epoch
    assert_ne!(first.concat(), (0..10).collect::<Vec<_>>());
    assert_ne!(first, second);
    assert_eq!(loader.indices().clone(), second.concat());
}

#[test]
fn empty_data_gives_no_batch() {
    let mut loader = DataLoader::new(0, 5, true, ChaCha8Rng::seed_from_u64(1));
    assert!(epoch(&mut loader).is_empty());
    assert_eq!((loader.dataset_len(), loader.batch_size()), (0, 5));
}

#[test]
fn parallel_streams() {
    let loader = SeqDataLoader::new(10, 3);
    let mut e = loader.start_epoch();
    assert_eq!((e.jump, e.max_iter), (3, 3));
    let mut steps = Vec::new();
    while let Some(b) = loader.next_batch(&mut e) {
        steps.push(b);
    }
    assert_eq!(steps, vec![vec![0, 3, 6], vec![1, 4, 7], vec![2, 5, 8]]);
    let mut all: Vec<usize> = steps.concat();
    all.sort();
    all.dedup();
    assert_eq!(all.len(), 9);
}

#[test]
fn streams_wrap_around_past_the_end() {
    // the first stream reads item (i·jump + iteration) mod len
    let loader = SeqDataLoader::new(4, 4);
    let mut e = loader.start_epoch();
    assert_eq!(loader.next_batch(&mut e), Some(vec![0, 1, 2, 3]));
    assert_eq!(loader.next_batch(&mut e), None);
    let small = SeqDataLoader::new(3, 4);
    let mut e = small.start_epoch();
    assert_eq!(e.max_iter, 0);
    assert_eq!(small.next_batch(&mut e), None);
}

#[test]
fn an_epoch_has_ceil_len_over_batch_size_batches() {
    for (len, bs) in [(0usize, 3usize), (1, 3), (3, 3), (7, 3), (9, 3), (10, 1), (5, 8)] {
        let mut loader = DataLoader::new(len, bs, false, ChaCha8Rng::seed_from_u64(1));
        let batches = epoch(&mut loader);
        assert_eq!(batches.len(), (len + bs - 1) / bs);
        assert_eq!(batches.concat(), (0..len).collect::<Vec<_>>());
    }
}

#[test]
fn an_empty_data_set_with_zero_batch_size_yields_nothing() {
    let mut loader = DataLoader::new(0, 0, false, ChaCha8Rng::seed_from_u64(1));
    let mut e = loader.start_epoch();
    assert!(loader.next_batch(&mut e).is_none());
    assert_eq!(e.cursor, 0);
}

#[test]
fn shuffling_draws_from_the_generator() {
    let mut loader = DataLoader::new(5, 2, true, ChaCha8Rng::seed_from_u64(7));
    let before = loader.rng().clone();
    loader.start_epoch();
    assert_ne!(loader.rng(), &before);

    let mut single = DataLoader::new(1, 2, true, ChaCha8Rng::seed_from_u64(7));
    let before = single.rng().clone();
    single.start_epoch();
    assert_eq!(single.rng(), &before);

    let mut plain = DataLoader::new(5, 2, false, ChaCha8Rng::seed_from_u64(7));
    let before = plain.rng().clone();
    plain.start_epoch();
    assert_eq!(plain.rng(), &before);
    assert_eq!(plain.indices(), &vec![0, 1, 2, 3, 4]);
}
