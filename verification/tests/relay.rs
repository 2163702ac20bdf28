use chat_relay::server::Server;

fn relay(capacity: usize) -> Server {
    Server::new(capacity, 4, 20)
}

fn join(server: &mut Server, name: &[u8]) -> u64 {
    let id = server.client_incoming().expect("table has room");
    let mut handshake = name.to_vec();
    handshake.push(b'\n');
    server.client_read(id, &handshake);
    id
}

fn name_of(server: &Server, id: u64) -> Option<Vec<u8>> {
    server.connections.iter().find(|c| c.id == id).and_then(|c| c.name.clone())
}

fn is_connected(server: &Server, id: u64) -> bool {
    server.connections.iter().any(|c| c.id == id)
}

#[test]
fn minimum_length_name_accepted() {
    let mut server = relay(8);
    let id = join(&mut server, b"abcd");
    assert_eq!(name_of(&server, id), Some(b"abcd".to_vec()));
}

#[test]
fn name_one_byte_short_rejected() {
    let mut server = relay(8);
    let id = join(&mut server, b"abc");
    assert!(!is_connected(&server, id));
    assert_eq!(server.connection_count(), 0);
}

#[test]
fn maximum_length_name_accepted() {
    let mut server = relay(8);
    let name = [b'x'; 20];
    let id = join(&mut server, &name);
    assert_eq!(name_of(&server, id), Some(name.to_vec()));
}

#[test]
fn name_one_byte_long_rejected() {
    let mut server = relay(8);
    let name = [b'x'; 21];
    let id = join(&mut server, &name);
    assert!(!is_connected(&server, id));
}

#[test]
fn unregistered_connection_produces_no_broadcast() {
    let mut server = relay(8);
    let x = join(&mut server, b"Alice");
    let y = server.client_incoming().expect("room");
    // An invalid-text line is discarded, and the connection stays
    // unregistered.
    server.client_read(y, &[0xff, b'\n']);
    assert!(is_connected(&server, y));
    assert_eq!(name_of(&server, y), None);
    assert!(server.outbound_of(x).is_empty());
    // An over-long first line is rejected as a name and closes the
    // connection; still nothing was broadcast.
    server.client_read(y, b"this line is much longer than twenty bytes\n");
    assert!(!is_connected(&server, y));
    assert!(server.outbound_of(x).is_empty());
}

#[test]
fn sender_never_receives_own_message() {
    let mut server = relay(8);
    let x = join(&mut server, b"Alice");
    let y = join(&mut server, b"Bobby");
    server.client_read(x, b"hi\n");
    assert!(server.outbound_of(x).is_empty());
    assert!(!server.outbound_of(y).is_empty());
}

#[test]
fn broadcast_frame_format() {
    let mut server = relay(8);
    let x = join(&mut server, b"Alice");
    let y = join(&mut server, b"Bobby");
    server.client_read(x, b"hi there\n");
    assert_eq!(server.outbound_of(y), b"Alice: hi there\n".to_vec());
}

#[test]
fn broadcasts_arrive_in_send_order() {
    let mut server = relay(8);
    let x = join(&mut server, b"Alice");
    let y = join(&mut server, b"Bobby");
    server.client_read(x, b"one\ntwo\n");
    assert_eq!(server.outbound_of(y), b"Alice: one\nAlice: two\n".to_vec());
    assert!(server.outbound_of(x).is_empty());
}

#[test]
fn invalid_text_message_discarded() {
    let mut server = relay(8);
    let x = join(&mut server, b"Alice");
    let y = join(&mut server, b"Bobby");
    server.client_read(x, &[0xff, 0xfe, b'\n']);
    assert!(server.outbound_of(y).is_empty());
    assert!(is_connected(&server, x));
}

#[test]
fn message_split_across_reads_is_delivered_once() {
    let mut server = relay(8);
    let x = join(&mut server, b"Alice");
    let y = join(&mut server, b"Bobby");
    server.client_read(x, b"hi th");
    assert!(server.outbound_of(y).is_empty());
    server.client_read(x, b"ere\n");
    assert_eq!(server.outbound_of(y), b"Alice: hi there\n".to_vec());
}

#[test]
fn empty_message_is_relayed() {
    let mut server = relay(8);
    let x = join(&mut server, b"Alice");
    let y = join(&mut server, b"Bobby");
    server.client_read(x, b"\n");
    assert_eq!(server.outbound_of(y), b"Alice: \n".to_vec());
}

#[test]
fn handshake_and_message_in_one_delivery() {
    let mut server = relay(8);
    let x = join(&mut server, b"Alice");
    let y = server.client_incoming().expect("room");
    server.client_read(y, b"Bobby\ngreetings\n");
    assert_eq!(name_of(&server, y), Some(b"Bobby".to_vec()));
    assert_eq!(server.outbound_of(x), b"Bobby: greetings\n".to_vec());
    assert!(server.outbound_of(y).is_empty());
}

#[test]
fn capacity_is_enforced() {
    let mut server = relay(2);
    let x = join(&mut server, b"Alice");
    let y = join(&mut server, b"Bobby");
    assert_eq!(server.client_incoming(), None);
    // The first two stay connected and functional.
    server.client_read(x, b"still here\n");
    assert_eq!(server.outbound_of(y), b"Alice: still here\n".to_vec());
}

#[test]
fn disconnect_cleans_up() {
    let mut server = relay(8);
    let x = join(&mut server, b"Alice");
    let y = join(&mut server, b"Bobby");
    let z = join(&mut server, b"Carol");
    server.client_closed(y);
    assert!(!is_connected(&server, y));
    server.client_read(x, b"anyone\n");
    assert_eq!(server.outbound_of(z), b"Alice: anyone\n".to_vec());
    assert!(server.outbound_of(y).is_empty());
    assert!(!server.wants_write(y));
    // A later connection gets a fresh identifier, never the closed one.
    let w = server.client_incoming().expect("room");
    assert_ne!(w, y);
    assert!(w > z);
}

#[test]
fn partial_writes_keep_the_rest_queued() {
    let mut server = relay(8);
    let x = join(&mut server, b"Alice");
    let y = join(&mut server, b"Bobby");
    server.client_read(x, b"hi\n");
    assert_eq!(server.outbound_of(y), b"Alice: hi\n".to_vec());
    assert!(server.wants_write(y));
    server.client_wrote(y, 7);
    assert_eq!(server.outbound_of(y), b"hi\n".to_vec());
    assert!(server.wants_write(y));
    server.client_wrote(y, 3);
    assert!(server.outbound_of(y).is_empty());
    assert!(!server.wants_write(y));
}

#[test]
fn read_for_unknown_identifier_is_ignored() {
    let mut server = relay(8);
    let x = join(&mut server, b"Alice");
    server.client_read(9999, b"ghost\n");
    assert_eq!(server.connection_count(), 1);
    assert!(server.outbound_of(x).is_empty());
}

#[test]
fn end_to_end_two_clients_and_a_refusal() {
    // A server for at most two clients, with a name minimum that admits
    // three-letter names.
    let mut server = Server::new(2, 3, 20);
    let x = server.client_incoming().expect("room");
    server.client_read(x, b"Alice\n");
    let y = server.client_incoming().expect("room");
    server.client_read(y, b"Bob\n");
    server.client_read(x, b"hi there\n");
    assert_eq!(server.outbound_of(y), b"Alice: hi there\n".to_vec());
    server.client_wrote(y, server.outbound_of(y).len());
    server.client_read(y, b"hello\n");
    assert_eq!(server.outbound_of(x), b"Bob: hello\n".to_vec());
    assert_eq!(server.client_incoming(), None);
}
