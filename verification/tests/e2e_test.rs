use myco_rs::client::Client;
use myco_rs::constants::{DELTA, TREE_SLOTS};
use myco_rs::decrypt;
use myco_rs::dtypes::{Bucket, Key, Metadata};
use myco_rs::server1::Server1;
use myco_rs::server2::Server2;
use myco_rs::tree::BinaryTree;
use myco_rs::trim_zeros;
use rand::{RngCore, SeedableRng};
use rand_chacha::ChaCha20Rng;

#[test]
fn test_client_setup() {
    let mut alice = Client::new("Alice".to_string());

    let k = Key::random();
    alice.setup(&k).expect("Setup failed");
    assert!(alice.keys.contains_key(&k));
}

#[test]
fn test_write_and_read() {
    let mut s2 = Server2::new();
    let mut s1 = Server1::new();
    let mut alice = Client::new("Alice".to_string());

    let k = Key::random();
    alice.setup(&k).expect("Setup failed");

    s1.batch_init(&mut s2, 1);

    alice.write(&[1], &k, &mut s1).expect("Write failed");
    s1.batch_write(&mut s2).unwrap();

    let msg = alice.read(&k, "Alice".to_string(), 0, &s2).expect("Read failed");
    assert_eq!(msg, vec![1]);
}

#[test]
fn test_multiple_clients_one_epoch() {
    let mut s2 = Server2::new();
    let mut s1 = Server1::new();

    let mut alice = Client::new("Alice".to_string());
    let mut bob = Client::new("Bob".to_string());

    let k1 = Key::random();
    let k2 = Key::random();

    alice.setup(&k1).expect("Setup failed");
    alice.setup(&k2).expect("Setup failed");

    bob.setup(&k1).expect("Setup failed");
    bob.setup(&k2).expect("Setup failed");

    s1.batch_init(&mut s2, 2);

    alice.write(&[1], &k1, &mut s1).expect("Write failed");
    bob.write(&[2], &k2, &mut s1).expect("Write failed");

    s1.batch_write(&mut s2).unwrap();

    let msg = alice.read(&k2, "Bob".to_string(), 0, &s2).expect("Read failed");
    assert_eq!(msg, vec![2]);

    let msg = bob.read(&k1, "Alice".to_string(), 0, &s2).expect("Read failed");
    assert_eq!(msg, vec![1]);
}

#[test]
fn test_multiple_writes_and_reads() {
    let mut s2 = Server2::new();
    let mut s1 = Server1::new();
    let mut alice = Client::new("Alice".to_string());

    let num_operations = 5;

    // Perform multiple writes
    for i in 0..num_operations {
        let k = Key::random();
        let msg = vec![i as u8, (i + 1) as u8, (i + 2) as u8];

        alice.setup(&k).expect("Setup failed");
        s1.batch_init(&mut s2, 1);
        alice.write(&msg, &k, &mut s1).expect("Write failed");
        s1.batch_write(&mut s2).unwrap();
        let read_msg = alice.read(&k, "Alice".to_string(), 0, &s2).expect("Read failed");

        assert_eq!(
            read_msg, msg,
            "Read message doesn't match written message for key {}",
            i
        );
    }
}

#[test]
fn test_multiple_clients_multiple_epochs() {
    let mut s2 = Server2::new();
    let mut s1 = Server1::new();

    let mut alice = Client::new("Alice".to_string());
    let mut bob = Client::new("Bob".to_string());

    let mut rng = ChaCha20Rng::from_entropy();

    // Initialize the first epoch
    for _ in 0..5 {
        s1.batch_init(&mut s2, 2);

        // Perform writes for both clients
        let k_alice_to_bob = Key::random();
        let k_bob_to_alice = Key::random();

        alice.setup(&k_alice_to_bob).expect("Setup failed");
        alice.setup(&k_bob_to_alice).expect("Setup failed");

        bob.setup(&k_bob_to_alice).expect("Setup failed");
        bob.setup(&k_alice_to_bob).expect("Setup failed");

        let alice_msg: Vec<u8> = (0..16).map(|_| (rng.next_u32() % 255 + 1) as u8).collect();
        let bob_msg: Vec<u8> = (0..16).map(|_| (rng.next_u32() % 255 + 1) as u8).collect();
        alice
            .write(&alice_msg, &k_alice_to_bob, &mut s1)
            .expect("Write failed");
        bob.write(&bob_msg, &k_bob_to_alice, &mut s1).expect("Write failed");

        // Perform batch write
        s1.batch_write(&mut s2).unwrap();

        let alice_read = alice
            .read(&k_bob_to_alice, "Bob".to_string(), 0, &s2)
            .expect("Read failed");
        assert_eq!(
            bob_msg, alice_read,
            "Read message doesn't match written message for bob"
        );

        let bob_read = bob
            .read(&k_alice_to_bob, "Alice".to_string(), 0, &s2)
            .expect("Read failed");
        assert_eq!(
            alice_msg, bob_read,
            "Read message doesn't match written message for alice"
        );
    }
}

#[test]
fn test_read_old_message_single_client_single_epoch() {
    let mut s2 = Server2::new();
    let mut s1 = Server1::new();
    let mut alice = Client::new("Alice".to_string());

    let mut rng = ChaCha20Rng::from_entropy();
    let key = Key::random();

    // Epoch 1: Alice writes
    s1.batch_init(&mut s2, 1);
    alice.setup(&key).expect("Setup failed");

    let alice_msg_epoch1: Vec<u8> = (0..16).map(|_| (rng.next_u32() % 255 + 1) as u8).collect();
    alice.write(&alice_msg_epoch1, &key, &mut s1).expect("Write failed");
    s1.batch_write(&mut s2).unwrap();

    let alice_read_epoch1: Vec<u8> = alice
        .read(&key, "Alice".to_string(), 0, &s2) // Read from epoch 1
        .expect("Read failed");

    assert_eq!(
        alice_msg_epoch1, alice_read_epoch1,
        "Read message doesn't match the written message from this epoch"
    );

    // Epoch 2: Alice writes again but reads the message from epoch 1
    s1.batch_init(&mut s2, 1);

    let alice_msg_epoch2: Vec<u8> = (0..16).map(|_| (rng.next_u32() % 255 + 1) as u8).collect();

    alice.write(&alice_msg_epoch2, &key, &mut s1).expect("Write failed");

    s1.batch_write(&mut s2).unwrap();

    // Alice reads from epoch 1
    let alice_read_epoch1: Vec<u8> = alice
        .read(&key, "Alice".to_string(), 1, &s2) // Read from epoch 1
        .expect("Read failed");

    assert_eq!(
        alice_msg_epoch1, alice_read_epoch1,
        "Read message doesn't match the written message from epoch 1"
    );
}

#[test]
fn test_read_old_message_two_clients() {
    let mut s2 = Server2::new();
    let mut s1 = Server1::new();
    let mut alice = Client::new("Alice".to_string());
    let mut bob = Client::new("Bob".to_string());

    let mut rng = ChaCha20Rng::from_entropy();

    let key_alice_to_bob = Key::random();
    let key_bob_to_alice = Key::random();

    // Epoch 1: Alice and Bob write
    s1.batch_init(&mut s2, 2);

    alice.setup(&key_alice_to_bob).expect("Alice setup failed");
    bob.setup(&key_alice_to_bob).expect("Bob setup failed");
    alice.setup(&key_bob_to_alice).expect("Alice setup failed");
    bob.setup(&key_bob_to_alice).expect("Bob setup failed");

    let alice_msg_epoch1: Vec<u8> = (0..16).map(|_| (rng.next_u32() % 255 + 1) as u8).collect();
    alice
        .write(&alice_msg_epoch1, &key_alice_to_bob, &mut s1)
        .expect("Alice write failed");

    let bob_msg_epoch1: Vec<u8> = (0..16).map(|_| (rng.next_u32() % 255 + 1) as u8).collect();
    bob.write(&bob_msg_epoch1, &key_bob_to_alice, &mut s1)
        .expect("Bob write failed");

    s1.batch_write(&mut s2).unwrap();

    // Epoch 2: Alice and Bob write again
    s1.batch_init(&mut s2, 2);

    let alice_msg_epoch2: Vec<u8> = (0..16).map(|_| (rng.next_u32() % 255 + 1) as u8).collect();
    alice
        .write(&alice_msg_epoch2, &key_alice_to_bob, &mut s1)
        .expect("Alice write failed in epoch 2");

    let bob_msg_epoch2: Vec<u8> = (0..16).map(|_| (rng.next_u32() % 255 + 1) as u8).collect();
    bob.write(&bob_msg_epoch2, &key_bob_to_alice, &mut s1)
        .expect("Bob write failed in epoch 2");

    s1.batch_write(&mut s2).unwrap();

    let alice_read_epoch1: Vec<u8> = alice
        .read(&key_bob_to_alice, "Bob".to_string(), 1, &s2) // Read from epoch 1
        .expect("Alice read failed from epoch 1");

    let bob_read_epoch1: Vec<u8> = bob
        .read(&key_alice_to_bob, "Alice".to_string(), 1, &s2) // Bob reads Alice's message from epoch 1
        .expect("Bob read failed from epoch 1");

    assert_eq!(
        bob_msg_epoch1, alice_read_epoch1,
        "Alice: Read message doesn't match the written message from epoch 1"
    );

    assert_eq!(
        alice_msg_epoch1, bob_read_epoch1,
        "Bob: Read message doesn't match Alice's written message from epoch 1"
    );
}

#[test]
fn test_read_old_message_single_client_multiple_epochs() {
    let mut s2 = Server2::new();
    let mut s1 = Server1::new();
    let mut alice = Client::new("Alice".to_string());

    let mut rng = ChaCha20Rng::from_entropy();
    let key = Key::random();

    // Epoch 1: Alice writes
    s1.batch_init(&mut s2, 1);
    alice.setup(&key).expect("Setup failed");

    let alice_msg_epoch1: Vec<u8> = (0..16).map(|_| (rng.next_u32() % 255 + 1) as u8).collect();
    alice.write(&alice_msg_epoch1, &key, &mut s1).expect("Write failed");
    s1.batch_write(&mut s2).unwrap();

    // Epoch 2: Alice writes again
    s1.batch_init(&mut s2, 1);

    let alice_msg_epoch2: Vec<u8> = (0..16).map(|_| (rng.next_u32() % 255 + 1) as u8).collect();
    alice.write(&alice_msg_epoch2, &key, &mut s1).expect("Write failed");

    s1.batch_write(&mut s2).unwrap();

    // Alice reads from epoch 1
    let alice_read_epoch1_epoch2: Vec<u8> = alice
        .read(&key, "Alice".to_string(), 1, &s2)
        .expect("Read failed in epoch 2");

    assert_eq!(
        alice_msg_epoch1, alice_read_epoch1_epoch2,
        "Read message doesn't match the written message from epoch 1 in epoch 2"
    );

    // Epoch 3: Alice writes again and reads from epoch 1
    s1.batch_init(&mut s2, 1);

    let alice_msg_epoch3: Vec<u8> = (0..16).map(|_| (rng.next_u32() % 255 + 1) as u8).collect();
    alice.write(&alice_msg_epoch3, &key, &mut s1).expect("Write failed");

    s1.batch_write(&mut s2).unwrap();

    // Alice reads from epoch 1 again
    let alice_read_epoch1_epoch3: Vec<u8> = alice
        .read(&key, "Alice".to_string(), 2, &s2)
        .expect("Read failed in epoch 3");

    assert_eq!(
        alice_msg_epoch1, alice_read_epoch1_epoch3,
        "Read message doesn't match the written message from epoch 1 in epoch 3"
    );

    // Epoch 4: Alice writes again and reads from epoch 1
    s1.batch_init(&mut s2, 1);

    let alice_msg_epoch4: Vec<u8> = (0..16).map(|_| (rng.next_u32() % 255 + 1) as u8).collect();
    alice.write(&alice_msg_epoch4, &key, &mut s1).expect("Write failed");

    s1.batch_write(&mut s2).unwrap();

    // Alice reads from epoch 1 again in epoch 4
    let alice_read_epoch1_epoch4: Vec<u8> = alice
        .read(&key, "Alice".to_string(), 3, &s2)
        .expect("Read failed in epoch 4");

    assert_eq!(
        alice_msg_epoch1, alice_read_epoch1_epoch4,
        "Read message doesn't match the written message from epoch 1 in epoch 4"
    );
}

#[test]
fn test_batch_write_logging() {
    let mut s2 = Server2::new();
    let mut s1 = Server1::new();

    // Do a batch init and write
    s1.batch_init(&mut s2, 1);
    let result = s1.batch_write(&mut s2);
    assert!(result.is_ok(), "Batch write failed");
}

#[test]
fn test_message_persistence() {
    let mut s2 = Server2::new();
    let mut s1 = Server1::new();

    // A sizeable fraction of the full message lifetime: enough epochs to
    // exercise re-enqueueing many times over while staying inside the
    // per-test time budget.
    let num_epochs = DELTA as usize * 3 / 10;
    let num_clients = 1;

    // Create a vector of unique messages and keys
    let mut rng = ChaCha20Rng::from_entropy();
    let key = Key::random();
    let mut client = Client::new("Client".to_string());
    client.setup(&key).unwrap();
    let k_msg = client.keys.get(&key).unwrap().0.clone();
    let mut messages = Vec::new();
    // Write messages
    for _epoch in 0..num_epochs {
        s1.batch_init(&mut s2, num_clients);
        let message: Vec<u8> = (0..16).map(|_| (rng.next_u32() % 255 + 1) as u8).collect();
        client.write(&message, &key, &mut s1).unwrap();
        s1.batch_write(&mut s2).unwrap();
        messages.push(message);
    }

    // Verify the messages by walking the storage tree with the shadow
    // metadata tree.
    let mut decrypted_messages = Vec::new();
    for i in 1..TREE_SLOTS {
        let bucket = match s2.tree.value[i].as_ref() {
            Some(b) => b,
            None => continue,
        };
        let metadata_bucket = match s1.metadata.value[i].as_ref() {
            Some(m) => m,
            None => continue,
        };
        for b in 0..bucket.len() {
            let (_l, k_oblv_t, _t_exp) = match metadata_bucket.get(b) {
                Some(e) => e,
                None => continue,
            };
            let c_msg = match bucket.get(b) {
                Some(c) => c,
                None => continue,
            };
            if let Ok(ct) = decrypt(&k_oblv_t.0, &c_msg.0) {
                if let Ok(decrypted) = decrypt(&k_msg, &ct) {
                    decrypted_messages.push(trim_zeros(&decrypted));
                }
            }
        }
    }

    // Verify that all original messages are present in the decrypted messages
    let mut found_messages = 0;
    for original_msg in &messages {
        if decrypted_messages.contains(original_msg) {
            found_messages += 1;
        }
    }

    assert_eq!(
        found_messages,
        num_epochs * num_clients,
        "Not all original messages were found in the decrypted messages"
    );
    assert_eq!(
        decrypted_messages.len(),
        num_epochs * num_clients,
        "Number of decrypted messages doesn't match the expected count"
    );
}

#[test]
/// Tests the serialization and deserialization of the storage server's
/// bucket tree and the coordinator's metadata tree.
fn test_tree_serialization() {
    let s2 = Server2::new();
    let s1 = Server1::new();

    let s1_metadata_serialized = s1.metadata.to_bytes();
    let s1_metadata_deserialized: BinaryTree<Metadata> =
        BinaryTree::<Metadata>::from_bytes(&s1_metadata_serialized).unwrap();

    let s2_tree_serialized = s2.tree.to_bytes();
    let s2_tree_deserialized: BinaryTree<Bucket> =
        BinaryTree::<Bucket>::from_bytes(&s2_tree_serialized).unwrap();

    assert_eq!(s1.metadata, s1_metadata_deserialized);
    assert_eq!(s2.tree, s2_tree_deserialized);
}

#[test]
/// The serialization round trip also holds once the trees carry an
/// epoch's worth of messages and shadow metadata.
fn test_tree_serialization_after_epoch() {
    let mut s2 = Server2::new();
    let mut s1 = Server1::new();
    let mut alice = Client::new("Alice".to_string());
    let k = Key::random();
    alice.setup(&k).expect("Setup failed");
    s1.batch_init(&mut s2, 1);
    alice.write(&[1, 2, 3], &k, &mut s1).expect("Write failed");
    s1.batch_write(&mut s2).unwrap();

    let meta_bytes = s1.metadata.to_bytes();
    let meta_back = BinaryTree::<Metadata>::from_bytes(&meta_bytes).unwrap();
    assert_eq!(s1.metadata, meta_back);

    let tree_bytes = s2.tree.to_bytes();
    let tree_back = BinaryTree::<Bucket>::from_bytes(&tree_bytes).unwrap();
    assert_eq!(s2.tree, tree_back);

    // A corrupted byte stream is rejected rather than misread.
    let mut bad = tree_bytes.clone();
    let last = bad.len() - 1;
    bad.truncate(last);
    assert!(BinaryTree::<Bucket>::from_bytes(&bad).is_none());
}
