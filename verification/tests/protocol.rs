use sealpir::client::PirClient;
use sealpir::server::PirServer;
use sealpir::PirError;
use sealpir::PirReply;

fn expect_err<T>(r: Result<T, PirError>) -> PirError {
    match r {
        Err(e) => e,
        Ok(_) => panic!("expected an error"),
    }
}

fn patterned_collection(num: usize, size: usize) -> Vec<Vec<u8>> {
    let mut collection: Vec<Vec<u8>> = Vec::new();
    for g in 0..num {
        let mut x = vec![0u8; size];
        for b in 0..size {
            x[b] = ((g * 131 + b * 17 + 5) % 256) as u8;
        }
        collection.push(x);
    }
    collection
}

#[test]
fn round_trip_every_index() {
    let num = 10;
    let mut server = PirServer::new(num, 32, 1024, 12, 2).unwrap();
    let client = PirClient::new(num, 32, 1024, 12, 2).unwrap();
    server.set_galois_key(client.get_key(), 7).unwrap();
    let collection = patterned_collection(num as usize, 32);
    server.setup(&collection).unwrap();
    for index in 0..num {
        let query = client.gen_query(index).unwrap();
        let reply = server.gen_reply(&query, 7).unwrap();
        let result = client.decode_reply(index, &reply).unwrap();
        assert_eq!(result, collection[index as usize]);
    }
}

#[test]
fn two_elements_fetch_second() {
    // Two elements of 288 bytes, recursion dimension two; asking for
    // index 1 returns its bytes exactly.
    let mut server = PirServer::new(2, 288, 2048, 12, 2).unwrap();
    let client = PirClient::new(2, 288, 2048, 12, 2).unwrap();
    server.set_galois_key(client.get_key(), 0).unwrap();
    let collection = patterned_collection(2, 288);
    server.setup(&collection).unwrap();
    let query = client.gen_query(1).unwrap();
    let reply = server.gen_reply(&query, 0).unwrap();
    let result = client.decode_reply(1, &reply).unwrap();
    assert_eq!(result, collection[1]);
}

#[test]
fn update_visibility() {
    // Replace element 0; index 5 still returns the original bytes and
    // index 0 returns the new ones.
    let num = 100;
    let mut server = PirServer::new(num, 288, 2048, 12, 2).unwrap();
    let client = PirClient::new(num, 288, 2048, 12, 2).unwrap();
    server.set_galois_key(client.get_key(), 0).unwrap();
    let mut collection = patterned_collection(num as usize, 288);
    server.setup(&collection).unwrap();

    let original_five = collection[5].clone();
    for b in 0..288 {
        collection[0][b] = ((b * 201 + 77) % 256) as u8;
    }
    server.update(&collection, 0).unwrap();

    let query = client.gen_query(5).unwrap();
    let reply = server.gen_reply(&query, 0).unwrap();
    assert_eq!(client.decode_reply(5, &reply).unwrap(), original_five);

    let query = client.gen_query(0).unwrap();
    let reply = server.gen_reply(&query, 0).unwrap();
    assert_eq!(client.decode_reply(0, &reply).unwrap(), collection[0]);
}

#[test]
fn two_clients_are_independent() {
    let num = 50;
    let mut server = PirServer::new(num, 64, 1024, 12, 2).unwrap();
    let client_a = PirClient::new(num, 64, 1024, 12, 2).unwrap();
    let client_b = PirClient::new(num, 64, 1024, 12, 2).unwrap();
    server.set_galois_key(client_a.get_key(), 1).unwrap();
    server.set_galois_key(client_b.get_key(), 2).unwrap();
    let collection = patterned_collection(num as usize, 64);
    server.setup(&collection).unwrap();

    let query_a = client_a.gen_query(3).unwrap();
    let query_b = client_b.gen_query(44).unwrap();
    let reply_a = server.gen_reply(&query_a, 1).unwrap();
    let reply_b = server.gen_reply(&query_b, 2).unwrap();
    assert_eq!(client_a.decode_reply(3, &reply_a).unwrap(), collection[3]);
    assert_eq!(client_b.decode_reply(44, &reply_b).unwrap(), collection[44]);
}

#[test]
fn query_size_stays_sublinear() {
    // Scaling the element count 16-fold leaves the serialized query the
    // same size: it is driven by the per-dimension axis sizes alone.
    let small = PirClient::new(1 << 12, 288, 2048, 12, 2).unwrap();
    let large = PirClient::new(1 << 16, 288, 2048, 12, 2).unwrap();
    let q_small = small.gen_query(17).unwrap();
    let q_large = large.gen_query(17).unwrap();
    assert_eq!(q_small.query.len(), q_large.query.len());
    assert!(q_large.query.len() < (1 << 16) * 288 / 16);
}

#[test]
fn boundary_rejection() {
    let num = 20;
    let mut server = PirServer::new(num, 16, 1024, 12, 2).unwrap();
    let client = PirClient::new(num, 16, 1024, 12, 2).unwrap();

    // An index at or past the element count is rejected.
    assert_eq!(expect_err(client.gen_query(num)), PirError::IndexOutOfRange);
    assert_eq!(expect_err(client.gen_query(num + 9)), PirError::IndexOutOfRange);

    // A collection of the wrong length is rejected.
    let short = patterned_collection(num as usize - 1, 16);
    assert_eq!(expect_err(server.setup(&short)), PirError::SizeMismatch);

    // A collection with a wrongly sized element is rejected.
    let mut bad = patterned_collection(num as usize, 16);
    bad[4] = vec![1u8; 15];
    assert_eq!(expect_err(server.setup(&bad)), PirError::SizeMismatch);

    // A reply for an unregistered client id is refused.
    let good = patterned_collection(num as usize, 16);
    server.setup(&good).unwrap();
    let query = client.gen_query(3).unwrap();
    assert_eq!(expect_err(server.gen_reply(&query, 99)), PirError::KeyNotRegistered);
}

#[test]
fn reply_before_setup_is_refused() {
    let mut server = PirServer::new(8, 16, 1024, 12, 2).unwrap();
    let client = PirClient::new(8, 16, 1024, 12, 2).unwrap();
    server.set_galois_key(client.get_key(), 0).unwrap();
    let query = client.gen_query(1).unwrap();
    assert_eq!(expect_err(server.gen_reply(&query, 0)), PirError::NotReady);
}

#[test]
fn bad_parameters_are_rejected() {
    // An element too large for one plaintext.
    assert_eq!(expect_err(PirClient::new(4, 3000, 2048, 12, 2)), PirError::ParameterError);
    // A zero recursion dimension.
    assert_eq!(expect_err(PirServer::new(4, 16, 2048, 12, 0)), PirError::ParameterError);
    // A ring degree that is not a power of two.
    assert_eq!(expect_err(PirClient::new(4, 16, 2000, 12, 2)), PirError::ParameterError);
    // A plaintext modulus too small to hold a byte.
    assert_eq!(expect_err(PirClient::new(4, 16, 2048, 7, 2)), PirError::ParameterError);
}

#[test]
fn malformed_wire_data_is_rejected() {
    let num = 8;
    let mut server = PirServer::new(num, 16, 1024, 12, 2).unwrap();
    let client = PirClient::new(num, 16, 1024, 12, 2).unwrap();
    server.set_galois_key(client.get_key(), 0).unwrap();
    server.setup(&patterned_collection(num as usize, 16)).unwrap();

    // A rotation key of the wrong length is refused.
    assert_eq!(expect_err(server.set_galois_key(&[1u8, 2, 3], 1)), PirError::MalformedBytes);

    // A query with truncated bytes is refused.
    let mut query = client.gen_query(2).unwrap();
    query.query.pop();
    assert_eq!(expect_err(server.gen_reply(&query, 0)), PirError::MalformedBytes);

    // A reply with truncated bytes is refused.
    let query = client.gen_query(2).unwrap();
    let reply = server.gen_reply(&query, 0).unwrap();
    let mut cut = PirReply { reply: reply.reply.clone(), num: reply.num };
    cut.reply.pop();
    assert_eq!(expect_err(client.decode_reply(2, &cut)), PirError::MalformedBytes);

    // A reply whose key field was damaged in flight fails to decode.
    let mut forged = PirReply { reply: reply.reply.clone(), num: reply.num };
    forged.reply[0] ^= 0xFF;
    assert_eq!(expect_err(client.decode_reply(2, &forged)), PirError::DecodeError);

    // An index past the element count is rejected before decoding.
    assert_eq!(expect_err(client.decode_reply(num, &reply)), PirError::IndexOutOfRange);
}

#[test]
fn flat_buffer_setup_and_update() {
    let num = 30;
    let size = 24;
    let mut server = PirServer::new(num, size as u32, 1024, 12, 2).unwrap();
    let client = PirClient::new(num, size as u32, 1024, 12, 2).unwrap();
    server.set_galois_key(client.get_key(), 0).unwrap();

    let mut flat = vec![0u8; num as usize * size];
    for i in 0..flat.len() {
        flat[i] = ((i * 37 + 11) % 256) as u8;
    }
    server.setup_bytes(&flat, size).unwrap();

    let query = client.gen_query(9).unwrap();
    let reply = server.gen_reply(&query, 0).unwrap();
    assert_eq!(client.decode_reply(9, &reply).unwrap(), flat[9 * size..10 * size].to_vec());

    for b in 0..size {
        flat[9 * size + b] = ((b * 3 + 1) % 256) as u8;
    }
    server.update_bytes(&flat, size, 9).unwrap();
    let reply = server.gen_reply(&query, 0).unwrap();
    assert_eq!(client.decode_reply(9, &reply).unwrap(), flat[9 * size..10 * size].to_vec());

    // A wrong flat length is rejected.
    assert_eq!(expect_err(server.setup_bytes(&flat[1..], size)), PirError::SizeMismatch);
}

#[test]
fn all_zero_and_all_ff_elements_round_trip() {
    let num = 4;
    let mut server = PirServer::new(num, 48, 1024, 12, 2).unwrap();
    let client = PirClient::new(num, 48, 1024, 12, 2).unwrap();
    server.set_galois_key(client.get_key(), 0).unwrap();
    let mut collection = patterned_collection(num as usize, 48);
    collection[1] = vec![0u8; 48];
    collection[2] = vec![0xFFu8; 48];
    server.setup(&collection).unwrap();
    for index in 0..num {
        let query = client.gen_query(index).unwrap();
        let reply = server.gen_reply(&query, 0).unwrap();
        assert_eq!(client.decode_reply(index, &reply).unwrap(), collection[index as usize]);
    }
}

#[test]
fn one_dimensional_recursion_works() {
    let num = 12;
    let mut server = PirServer::new(num, 16, 1024, 12, 1).unwrap();
    let client = PirClient::new(num, 16, 1024, 12, 1).unwrap();
    server.set_galois_key(client.get_key(), 0).unwrap();
    let collection = patterned_collection(num as usize, 16);
    server.setup(&collection).unwrap();
    let query = client.gen_query(11).unwrap();
    let reply = server.gen_reply(&query, 0).unwrap();
    assert_eq!(client.decode_reply(11, &reply).unwrap(), collection[11]);
}

#[test]
fn three_dimensional_recursion_works() {
    let num = 60;
    let mut server = PirServer::new(num, 16, 1024, 12, 3).unwrap();
    let client = PirClient::new(num, 16, 1024, 12, 3).unwrap();
    server.set_galois_key(client.get_key(), 0).unwrap();
    let collection = patterned_collection(num as usize, 16);
    server.setup(&collection).unwrap();
    let query = client.gen_query(59).unwrap();
    let reply = server.gen_reply(&query, 0).unwrap();
    assert_eq!(client.decode_reply(59, &reply).unwrap(), collection[59]);
}
