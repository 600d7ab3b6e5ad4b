use myco_rs::client::Client;
use myco_rs::constants::{D, DELTA, Z};
use myco_rs::crypto::{decimal_string, u64_be_bytes};
use myco_rs::dtypes::{Block, Bucket, Direction, Key, Metadata, Path};
use myco_rs::error::MycoError;
use myco_rs::server1::Server1;
use myco_rs::server2::Server2;
use myco_rs::{decrypt, encrypt, kdf, prf, trim_zeros, EncryptionType};

/// Packing a path of length `D` to bytes and unpacking it yields the
/// original path.
#[test]
fn test_path_bytes_round_trip() {
    let mut dirs = Vec::new();
    for i in 0..D {
        dirs.push(if i % 3 == 0 { Direction::Right } else { Direction::Left });
    }
    let path = Path::new(dirs.clone());
    let bytes = path.to_bytes();
    assert_eq!(bytes.len(), (D + 7) / 8);
    let back = Path::from_bytes(&bytes);
    assert_eq!(back.0, dirs);
}

/// Walking the path `Path::from_index(i)` from the root reaches index `i`
/// again.
#[test]
fn test_path_from_index_walk() {
    for idx in 1usize..64 {
        let path = Path::from_index(idx);
        let mut walked: usize = 1;
        for d in &path.0 {
            walked = 2 * walked
                + match d {
                    Direction::Left => 0,
                    Direction::Right => 1,
                };
        }
        assert_eq!(walked, idx);
    }
}

/// The KDF is deterministic and returns exactly 16 bytes.
#[test]
fn test_kdf_deterministic() {
    let a = kdf(b"some key", "label").expect("KDF failed");
    let b = kdf(b"some key", "label").expect("KDF failed");
    assert_eq!(a, b);
    assert_eq!(a.len(), 16);
    assert_ne!(a, kdf(b"some key", "other").expect("KDF failed"));
}

/// The PRF is deterministic and returns exactly 32 bytes.
#[test]
fn test_prf_deterministic() {
    let a = prf(b"some key", b"input").expect("PRF failed");
    let b = prf(b"some key", b"input").expect("PRF failed");
    assert_eq!(a, b);
    assert_eq!(a.len(), 32);
    assert_ne!(a, prf(b"other key", b"input").expect("PRF failed"));
}

/// Decrypting an encryption and trimming the zero padding gives the
/// message back when it ends in a non-zero byte; a message with trailing
/// zeros comes back modulo those zeros.
#[test]
fn test_encrypt_decrypt_trim_round_trip() {
    let key = kdf(b"round trip", "enc").expect("KDF failed");
    for mode in [EncryptionType::Encrypt, EncryptionType::DoubleEncrypt] {
        let msg = vec![9u8, 8, 7, 1];
        let ct = encrypt(&key, &msg, mode).expect("Encryption failed");
        let pt = decrypt(&key, &ct).expect("Decryption failed");
        assert_eq!(trim_zeros(&pt), msg);
    }
    // Trailing zeros are indistinguishable from padding and are lost.
    let msg = vec![5u8, 0, 0];
    let ct = encrypt(&key, &msg, EncryptionType::Encrypt).expect("Encryption failed");
    let pt = decrypt(&key, &ct).expect("Decryption failed");
    assert_eq!(trim_zeros(&pt), vec![5u8]);
}

/// Decryption under the wrong key fails as a value, not a panic.
#[test]
fn test_decrypt_wrong_key_fails() {
    let key = kdf(b"right", "enc").expect("KDF failed");
    let wrong = kdf(b"wrong", "enc").expect("KDF failed");
    let ct = encrypt(&key, &[1, 2, 3], EncryptionType::Encrypt).expect("Encryption failed");
    assert!(decrypt(&wrong, &ct).is_err());
    assert!(decrypt(&key, &[0u8; 4]).is_err());
}

/// An empty batch still has a path-set holding exactly the root, an empty
/// queue, and a batch write that only advances the epochs.
#[test]
fn test_batch_init_zero_writes() {
    let mut s2 = Server2::new();
    let mut s1 = Server1::new();
    s1.batch_init(&mut s2, 0);
    assert_eq!(s1.pathset_indices, vec![1]);
    assert_eq!(s1.message_queue.len(), 1);
    assert!(s1.message_queue[0].is_empty());
    let e1 = s1.epoch;
    let e2 = s2.epoch;
    s1.batch_write(&mut s2).expect("Batch write failed");
    assert_eq!(s1.epoch, e1 + 1);
    assert_eq!(s2.epoch, e2 + 1);
}

/// Reading further back than the key ring reaches reports
/// `NoMessageFound`.
#[test]
fn test_read_beyond_key_ring() {
    let s2 = Server2::new();
    let mut alice = Client::new("Alice".to_string());
    let k = Key::random();
    alice.setup(&k).expect("Setup failed");
    alice.epoch = 5;
    let r = alice.read(&k, "Alice".to_string(), 3, &s2);
    assert!(matches!(r, Err(MycoError::NoMessageFound)));
}

/// A read under a key the client never set up reports `KeyNotFound`.
#[test]
fn test_key_not_found() {
    let mut s2 = Server2::new();
    let mut s1 = Server1::new();
    let mut alice = Client::new("Alice".to_string());
    alice.epoch = 1;
    let k = Key::random();
    let r = alice.read(&k, "Alice".to_string(), 0, &s2);
    assert!(matches!(r, Err(MycoError::KeyNotFound)));
    s1.batch_init(&mut s2, 1);
    let w = alice.write(&[1], &k, &mut s1);
    assert!(matches!(w, Err(MycoError::KeyNotFound)));
}

/// Queueing a write before any batch was initialised fails with
/// `LcaNotFound`: the path-set is empty.
#[test]
fn test_queue_write_without_batch() {
    let mut s1 = Server1::new();
    let r = s1.queue_write(vec![1, 2, 3], vec![4, 5, 6], Key::random(), vec![7]);
    assert!(matches!(r, Err(MycoError::LcaNotFound)));
}

/// A mismatched batch size is rejected.
#[test]
fn test_read_batch_invalid_batch_size() {
    let s2 = Server2::new();
    let mut alice = Client::new("Alice".to_string());
    let k = Key::random();
    alice.setup(&k).expect("Setup failed");
    alice.epoch = 1;
    let r = alice.read_batch(vec![k], "Alice".to_string(), 0, 2, &s2);
    assert!(matches!(r, Err(MycoError::InvalidBatchSize)));
}

/// Read-batch fan-out: a client holding many keys, one of which was
/// written under, gets exactly that one message back, in position.
#[test]
fn test_read_batch_fan_out() {
    let mut s2 = Server2::new();
    let mut s1 = Server1::new();
    let mut c = Client::new("C".to_string());

    let mut keys = Vec::new();
    for _ in 0..128 {
        let k = Key::random();
        c.setup(&k).expect("Setup failed");
        keys.push(k);
    }

    s1.batch_init(&mut s2, 1);
    c.write(&[0x42], &keys[17], &mut s1).expect("Write failed");
    s1.batch_write(&mut s2).unwrap();

    let results = c
        .read_batch(keys, "C".to_string(), 0, 128, &s2)
        .expect("Read failed");
    assert_eq!(results.len(), 128);
    for (i, r) in results.iter().enumerate() {
        if i == 17 {
            assert_eq!(r.as_deref(), Some(&[0x42u8][..]));
        } else {
            assert!(r.is_none(), "unexpected message for key {}", i);
        }
    }
}

/// Fake writes leave the same server-observable shape as real writes:
/// every touched bucket ends the epoch padded to exactly `Z` blocks, and
/// the key ring grows the same way.
#[test]
fn test_fake_write_shape() {
    let mut s2_real = Server2::new();
    let mut s1_real = Server1::new();
    let mut alice = Client::new("Alice".to_string());
    let k = Key::random();
    alice.setup(&k).expect("Setup failed");
    s1_real.batch_init(&mut s2_real, 1);
    alice.write(&[1], &k, &mut s1_real).expect("Write failed");
    s1_real.batch_write(&mut s2_real).unwrap();

    let mut s2_fake = Server2::new();
    let mut s1_fake = Server1::new();
    let bob = Client::new("Alice".to_string());
    s1_fake.batch_init(&mut s2_fake, 1);
    bob.fake_write(&mut s1_fake).expect("Fake write failed");
    s1_fake.batch_write(&mut s2_fake).unwrap();

    for s1 in [&s1_real, &s1_fake] {
        for bucket in &s1.pt.packed_buckets {
            assert_eq!(bucket.len(), Z);
        }
    }
    assert_eq!(s2_real.prf_keys.len(), s2_fake.prf_keys.len());
    assert_eq!(s2_real.epoch, s2_fake.epoch);
}

/// Before the batch closes, a fake write's queued entry has the same
/// field lengths as a real write's: same ciphertext length, same key
/// length, same path length, same expiry.
#[test]
fn test_fake_write_queue_entry_shape() {
    let mut s2_real = Server2::new();
    let mut s1_real = Server1::new();
    let mut alice = Client::new("Alice".to_string());
    let k = Key::random();
    alice.setup(&k).expect("Setup failed");
    s1_real.batch_init(&mut s2_real, 1);
    alice.write(&[1], &k, &mut s1_real).expect("Write failed");

    let mut s2_fake = Server2::new();
    let mut s1_fake = Server1::new();
    let bob = Client::new("Alice".to_string());
    s1_fake.batch_init(&mut s2_fake, 1);
    bob.fake_write(&mut s1_fake).expect("Fake write failed");

    let real_entry = s1_real
        .message_queue
        .iter()
        .flat_map(|row| row.iter())
        .next()
        .expect("real write queued nothing");
    let fake_entry = s1_fake
        .message_queue
        .iter()
        .flat_map(|row| row.iter())
        .next()
        .expect("fake write queued nothing");
    assert_eq!(fake_entry.ct.len(), real_entry.ct.len());
    assert_eq!(fake_entry.k_oblv_t.0.len(), real_entry.k_oblv_t.0.len());
    assert_eq!(fake_entry.path.0.len(), real_entry.path.0.len());
    assert_eq!(fake_entry.t_exp, real_entry.t_exp);
}

/// A fake read fetches exactly the buckets of one root-to-leaf path, the
/// same query shape as a real single-key read.
#[test]
fn test_fake_read_shape() {
    let s2 = Server2::new();
    let alice = Client::new("Alice".to_string());
    let buckets = alice.fake_read(&s2);
    assert_eq!(buckets.len(), D + 1);
}

/// An epoch with an empty queue ships only padding: every bucket is
/// padded to exactly `Z` blocks and every shadow entry carries a zero
/// expiry and an empty key.
#[test]
fn test_empty_batch_ships_padding() {
    let mut s2 = Server2::new();
    let mut s1 = Server1::new();
    s1.batch_init(&mut s2, 0);
    s1.batch_write(&mut s2).expect("empty batch write failed");
    assert!(!s1.pt.packed_buckets.is_empty());
    for bucket in &s1.pt.packed_buckets {
        assert_eq!(bucket.len(), Z);
    }
    for meta in &s1.metadata_pt.packed_buckets {
        assert_eq!(meta.len(), Z);
        for b in 0..meta.len() {
            let (_path, key, t_exp) = meta.get(b).unwrap();
            assert_eq!(*t_exp, 0);
            assert!(key.0.is_empty());
        }
    }
}

/// Capacity under collision: driving 32 writes whose derived paths all
/// collide must not panic; the colliding bucket absorbs them all.
#[test]
fn test_bucket_capacity_collisions() {
    let mut s2 = Server2::new();
    let mut s1 = Server1::new();
    s1.batch_init(&mut s2, 1);
    let k = Key::new(vec![7u8; 16]);
    for _ in 0..32 {
        // The same tag and suffix derive the same path, so every write
        // lands in the same bucket.
        s1.queue_write(vec![1, 2, 3], vec![9u8; 32], k.clone(), vec![b'C'])
            .expect("Queue write failed");
    }
    s1.batch_write(&mut s2).expect("Batch write failed");
}

/// Overfilling one bucket past `Z` is reported as an error, not a panic.
#[test]
fn test_bucket_overflow_reported() {
    let mut s2 = Server2::new();
    let mut s1 = Server1::new();
    s1.batch_init(&mut s2, 1);
    let k = Key::new(vec![7u8; 16]);
    for _ in 0..(Z + 1) {
        s1.queue_write(vec![1, 2, 3], vec![9u8; 32], k.clone(), vec![b'C'])
            .expect("Queue write failed");
    }
    let r = s1.batch_write(&mut s2);
    assert!(matches!(r, Err(MycoError::BucketOverflow)));
}

/// The client's epoch counts exactly the successful writes.
#[test]
fn test_client_epoch_counts_writes() {
    let mut s2 = Server2::new();
    let mut s1 = Server1::new();
    let mut alice = Client::new("Alice".to_string());
    let k = Key::random();
    alice.setup(&k).expect("Setup failed");
    assert_eq!(alice.epoch, 0);

    // A failed write (no key) does not count.
    let unknown = Key::random();
    s1.batch_init(&mut s2, 1);
    let _ = alice.write(&[1], &unknown, &mut s1);
    assert_eq!(alice.epoch, 0);

    alice.write(&[1], &k, &mut s1).expect("Write failed");
    assert_eq!(alice.epoch, 1);
    s1.batch_write(&mut s2).unwrap();

    s1.batch_init(&mut s2, 1);
    alice.write(&[2], &k, &mut s1).expect("Write failed");
    assert_eq!(alice.epoch, 2);
}

/// The storage server's key ring holds the most recent epoch key last and
/// never grows beyond `DELTA`.
#[test]
fn test_prf_key_ring() {
    let mut s2 = Server2::new();
    let mut s1 = Server1::new();
    for _ in 0..3 {
        s1.batch_init(&mut s2, 0);
        let expected_last = s1.k_s1_t.0.clone();
        s1.batch_write(&mut s2).unwrap();
        assert!(s2.prf_keys.len() <= DELTA);
        assert_eq!(s2.prf_keys.last().unwrap().0, expected_last);
    }
    assert_eq!(s2.prf_keys.len(), 3);
}

/// The decimal rendering and big-endian byte helpers match their std
/// counterparts.
#[test]
fn test_numeric_helpers() {
    assert_eq!(decimal_string(0), "0");
    assert_eq!(decimal_string(1234), "1234");
    assert_eq!(decimal_string(u64::MAX), u64::MAX.to_string());
    assert_eq!(u64_be_bytes(0x0102030405060708), 0x0102030405060708u64.to_be_bytes().to_vec());
}

/// A message written at an epoch stays readable at later epochs while its
/// key remains in the ring, and reading past the ring's reach fails.
#[test]
fn test_persistence_window() {
    let mut s2 = Server2::new();
    let mut s1 = Server1::new();
    let mut alice = Client::new("Alice".to_string());
    let k = Key::random();
    alice.setup(&k).expect("Setup failed");

    s1.batch_init(&mut s2, 1);
    let m1 = vec![0x11u8, 0x22];
    alice.write(&m1, &k, &mut s1).expect("Write failed");
    s1.batch_write(&mut s2).unwrap();

    let r0 = alice.read(&k, "Alice".to_string(), 0, &s2).expect("Read failed");
    assert_eq!(r0, m1);

    // Run empty epochs; the client tracks the server's epoch as if it
    // were sending cover traffic.
    let window = 200;
    for back in 1..=window {
        s1.batch_init(&mut s2, 0);
        s1.batch_write(&mut s2).unwrap();
        alice.epoch += 1;
        let r = alice
            .read(&k, "Alice".to_string(), back, &s2)
            .expect("Read failed within the window");
        assert_eq!(r, m1, "message lost at epoch_past {}", back);
    }

    // Reading past the ring's reach fails with NoMessageFound.
    let too_far = alice.epoch;
    alice.epoch += 1;
    let r = alice.read(&k, "Alice".to_string(), too_far, &s2);
    assert!(matches!(r, Err(MycoError::NoMessageFound)));
}

/// Shuffling a bucket with a seed permutes its blocks: nothing is lost,
/// nothing is invented, and the same seed gives the same order.
#[test]
fn test_bucket_shuffle() {
    let mut b1 = Bucket(Vec::new());
    for i in 0..10u8 {
        b1.push(Block::new(vec![i; 4]));
    }
    let mut b2 = b1.clone();
    let seed = vec![7u8; 32];
    b1.shuffle(&seed);
    b2.shuffle(&seed);
    assert_eq!(b1, b2);
    let mut seen: Vec<Vec<u8>> = (0..b1.len()).map(|i| b1.get(i).unwrap().0.clone()).collect();
    seen.sort();
    let expected: Vec<Vec<u8>> = (0..10u8).map(|i| vec![i; 4]).collect();
    assert_eq!(seen, expected);
}

/// A live metadata entry whose paired block does not decrypt makes the
/// batch write fail with `DecryptionFailed` instead of panicking.
#[test]
fn test_batch_write_decryption_failure() {
    let mut s2 = Server2::new();
    let mut s1 = Server1::new();

    // Plant a corrupted block under a live metadata entry at the root.
    s2.tree.value[1] = Some(Bucket(vec![Block::new(vec![0xAB; 40])]));
    s1.metadata.value[1] = Some(Metadata(vec![(
        Path::new(vec![]),
        Key::new(vec![3u8; 16]),
        u64::MAX,
    )]));

    s1.batch_init(&mut s2, 0);
    let r = s1.batch_write(&mut s2);
    assert!(matches!(r, Err(MycoError::DecryptionFailed)));
}

/// The full persistence window: a message written at epoch 0 is still
/// readable `DELTA - 1` epochs later (with `epoch_past = DELTA - 1`), and
/// unreadable one epoch after that, once its key has left the ring.
#[test]
fn test_persistence_window_boundary() {
    let mut s2 = Server2::new();
    let mut s1 = Server1::new();
    let mut alice = Client::new("Alice".to_string());
    let k = Key::random();
    alice.setup(&k).expect("Setup failed");

    s1.batch_init(&mut s2, 1);
    let m1 = vec![0x11u8, 0x22];
    alice.write(&m1, &k, &mut s1).expect("Write failed");
    s1.batch_write(&mut s2).unwrap();

    for _ in 1..DELTA {
        s1.batch_init(&mut s2, 0);
        s1.batch_write(&mut s2).unwrap();
        alice.epoch += 1;
    }
    // `DELTA` epochs have completed, so the ring holds `DELTA` keys and
    // the write's key is the oldest one still present.
    assert_eq!(s2.prf_keys.len(), DELTA);
    let r = alice
        .read(&k, "Alice".to_string(), DELTA - 1, &s2)
        .expect("read at the window's edge failed");
    assert_eq!(r, m1);

    // One more epoch evicts the write's key from the ring.
    s1.batch_init(&mut s2, 0);
    s1.batch_write(&mut s2).unwrap();
    alice.epoch += 1;
    let r2 = alice.read(&k, "Alice".to_string(), DELTA, &s2);
    assert!(matches!(r2, Err(MycoError::NoMessageFound)));
}
