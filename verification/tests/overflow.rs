use wfmpsc::{ConsumerHandle, ConsumerHandleImpl, TLQ, __MPSCQ};

/// utility function that converts byte slice into utf8 and unwraps
fn conv(b: &[u8]) -> &str {
    core::str::from_utf8(b).unwrap()
}

/// Check if partial writes are executed correctly on the buffer.
#[test]
pub fn partial_write() {
    let (mut q, cons, prod) = __MPSCQ::<1, 4, 16, 16>::split_view_default();
    // push more than 15 bytes into the queue
    prod[0].push(&mut q, "Hello World, how are you doing".as_bytes());
    //                           ^
    //                     the 'w' is the 16th letter

    let mut dst = [0u8; 15];
    cons.pop_into(&mut q, 0, &mut dst);
    assert_eq!("Hello World, ho", conv(&dst));
}

fn push_all<const T: usize, const C: usize, const S: usize, const L: usize>(
    p: &TLQ<T, C, S, L>,
    q: &mut __MPSCQ<T, C, S, L>,
    chunk: &[u8],
    budget: &mut usize,
) {
    if *budget > 0 {
        let n = if chunk.len() < *budget { chunk.len() } else { *budget };
        *budget -= p.push(q, &chunk[..n]);
    }
}

/// Several producers push chunks in turn while the consumer drains every
/// ring; every byte pushed is popped once, in the order of its producer.
#[test]
pub fn interleaved_write() {
    const PRODUCERS: usize = 8;
    let total_bytes: usize = 10_000;
    let (mut q, consumer, prods): (
        __MPSCQ<PRODUCERS, 8, { PRODUCERS << 8 }, 256>,
        ConsumerHandleImpl<PRODUCERS, 8, { PRODUCERS << 8 }, 256>,
        Vec<TLQ<PRODUCERS, 8, { PRODUCERS << 8 }, 256>>,
    ) = __MPSCQ::split_view_default();
    let mut budgets = vec![total_bytes; PRODUCERS];
    let mut expected_next = vec![0u8; PRODUCERS];
    let mut counter: usize = 0;
    let mut dst = [0u8; 1 << 5];
    let chunks: Vec<Vec<u8>> = (0..PRODUCERS)
        .map(|_| (0..105u32).map(|b| b as u8).collect())
        .collect();
    let mut sent = vec![0usize; PRODUCERS];
    while counter < total_bytes * PRODUCERS {
        for (pid, p) in prods.iter().enumerate() {
            let before = budgets[pid];
            // each producer pushes the bytes 0, 1, 2, ... wrapping at 105
            let start = sent[pid] % 105;
            let chunk: Vec<u8> = chunks[pid][start..].to_vec();
            push_all(p, &mut q, &chunk, &mut budgets[pid]);
            sent[pid] += before - budgets[pid];
        }
        for pid in 0..consumer.get_producer_count() {
            let n = consumer.pop_into(&mut q, pid, &mut dst);
            for b in &dst[..n] {
                assert_eq!(*b, expected_next[pid]);
                expected_next[pid] = if expected_next[pid] == 104 { 0 } else { expected_next[pid] + 1 };
            }
            counter += n;
        }
    }
    assert_eq!(counter, total_bytes * PRODUCERS);
}
