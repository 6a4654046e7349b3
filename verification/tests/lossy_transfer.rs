//! End-to-end delivery over a lossy in-memory channel: every datagram is
//! dropped with probability 0.5 (seeded generator), in both directions, and
//! the receiving application still observes exactly the bytes the sending
//! application wrote, in order.

use std::collections::VecDeque;

use bbr_transport::bbr_transport::{split_chunks, Ingest, Receiver, Sender};
use bbr_transport::codec::MAX_PAYLOAD_SIZE;

use rand::rngs::StdRng;
use rand::{RngExt, SeedableRng};

#[test]
fn lossy_transfer() {
    let mut rng = StdRng::seed_from_u64(0xAB);
    let drop_probability = 0.5;

    let mut sender = Sender::new(16);
    let mut receiver = Receiver::new(16);

    let data = vec![0xAA; 100 * MAX_PAYLOAD_SIZE];
    let chunks = split_chunks(&data);
    assert_eq!(100, chunks.len());

    // the wire: one queue per direction
    let mut to_receiver: VecDeque<Vec<u8>> = VecDeque::new();
    let mut to_sender: VecDeque<Vec<u8>> = VecDeque::new();

    let mut out: Vec<u8> = Vec::new();
    let mut read_buf = vec![0u8; MAX_PAYLOAD_SIZE];
    let mut next_chunk = 0;
    let mut now: u64 = 0;

    let mut rounds: u64 = 0;
    while out.len() < data.len() {
        rounds += 1;
        if rounds > 200_000 {
            panic!(
                "stalled: delivered {} of {} bytes, next_chunk {}, queues {}/{}",
                out.len(),
                data.len(),
                next_chunk,
                to_receiver.len(),
                to_sender.len()
            );
        }
        now += 500;

        // the application thread pushes bytes while the window has room
        while next_chunk < chunks.len() {
            match sender.write_chunk(&chunks[next_chunk], now) {
                Some(packet) => {
                    if !rng.random_bool(drop_probability) {
                        to_receiver.push_back(packet);
                    }
                    next_chunk += 1;
                },
                None => break,
            }
        }

        // the retransmit task re-sends everything that has waited too long
        while let Some(k) = sender.due_retransmit(now) {
            let packet = sender.refresh_entry(k, now).expect("due entry vanished");
            if !rng.random_bool(drop_probability) {
                to_receiver.push_back(packet);
            }
        }

        // the ingest task buffers arrivals and acknowledges them; a message
        // beyond the window waits at the back for the application to drain
        for _ in 0..to_receiver.len() {
            let packet = to_receiver.pop_front().unwrap();
            match receiver.ingest(&packet).expect("protocol violation") {
                Ingest::Stored(ack) | Ingest::Duplicate(ack) | Ingest::Old(ack) => {
                    if !rng.random_bool(drop_probability) {
                        to_sender.push_back(ack);
                    }
                },
                Ingest::Full => {
                    to_receiver.push_back(packet);
                },
            }
        }

        // the receiving application drains in-order payloads
        while let Some(n) = receiver.read(&mut read_buf) {
            out.extend_from_slice(&read_buf[..n]);
        }

        // the acknowledgement task clears what the receiver has
        while let Some(ack) = to_sender.pop_front() {
            sender.handle_ack(&ack).expect("protocol violation");
        }
    }

    assert_eq!(data.len(), out.len());
    assert_eq!(data, out);

    // Retransmit liveness: keep the acknowledgement traffic going and the
    // sender's window eventually empties — nothing is ever due again.
    while sender.due_retransmit(u64::MAX).is_some() {
        now += 500;
        while let Some(k) = sender.due_retransmit(now) {
            let packet = sender.refresh_entry(k, now).expect("due entry vanished");
            if !rng.random_bool(drop_probability) {
                to_receiver.push_back(packet);
            }
        }
        for _ in 0..to_receiver.len() {
            let packet = to_receiver.pop_front().unwrap();
            match receiver.ingest(&packet).expect("protocol violation") {
                Ingest::Stored(ack) | Ingest::Duplicate(ack) | Ingest::Old(ack) => {
                    if !rng.random_bool(drop_probability) {
                        to_sender.push_back(ack);
                    }
                },
                Ingest::Full => {
                    to_receiver.push_back(packet);
                },
            }
        }
        while let Some(ack) = to_sender.pop_front() {
            sender.handle_ack(&ack).expect("protocol violation");
        }
    }
}
