use raxiom::communication::MpiWorld;
use raxiom::communication::Network;
use raxiom::communication::SystemCommunicator;
use raxiom::communication::Tag;
use raxiom::data_by_rank::DataByRank;
use raxiom::exchange::exchange_all;
use raxiom::exchange::ExchangeCommunicator;

fn comms_of(size: usize) -> Vec<ExchangeCommunicator<i32>> {
    (0..size)
        .map(|rank| {
            ExchangeCommunicator::from(MpiWorld::new(
                SystemCommunicator { rank, size },
                Tag::default(),
            ))
        })
        .collect()
}

#[test]
fn exchange_all_round_trips_both_ways() {
    let comms = comms_of(2);
    for _ in 0..100 {
        let mut net: Network<i32> = Network::new(2);
        let x0: Vec<i32> = (0..100).collect();
        let x1: Vec<i32> = (0..100).rev().collect();
        let mut out0: DataByRank<i32> = DataByRank::from_size_and_rank(2, 0);
        out0.insert(1, x0.clone());
        let mut out1: DataByRank<i32> = DataByRank::from_size_and_rank(2, 1);
        out1.insert(0, x1.clone());
        let incoming = exchange_all(&comms, &mut net, vec![out0, out1]);
        assert_eq!(incoming[1].get(0), &x0);
        assert_eq!(incoming[0].get(1), &x1);
    }
}

#[test]
fn exchange_all_keeps_original_order() {
    // with no other traffic on the channel, what rank 0 sends to rank 2
    // arrives as rank 2's buffer from rank 0, in order
    let comms = comms_of(3);
    let mut net: Network<i32> = Network::new(3);
    let mut outgoing: Vec<DataByRank<i32>> = Vec::new();
    for rank in 0..3 {
        let mut staged: DataByRank<i32> = DataByRank::from_size_and_rank(3, rank);
        for dest in 0..3 {
            if dest != rank {
                staged.insert(dest, vec![(10 * rank + dest) as i32, 99]);
            }
        }
        outgoing.push(staged);
    }
    let incoming = exchange_all(&comms, &mut net, outgoing);
    for dest in 0..3usize {
        for src in 0..3usize {
            if src != dest {
                assert_eq!(incoming[dest].get(src), &vec![(10 * src + dest) as i32, 99]);
            }
        }
        assert!(incoming[dest].get(dest).is_empty());
    }
}

#[test]
fn exchange_all_moves_empty_buffers() {
    let comms = comms_of(2);
    let mut net: Network<i32> = Network::new(2);
    let out0: DataByRank<i32> = DataByRank::from_size_and_rank(2, 0);
    let out1: DataByRank<i32> = DataByRank::from_size_and_rank(2, 1);
    let incoming = exchange_all(&comms, &mut net, vec![out0, out1]);
    assert!(incoming[0].get(1).is_empty());
    assert!(incoming[1].get(0).is_empty());
}

#[test]
fn data_by_rank_stages_per_destination() {
    let mut staged: DataByRank<i32> = DataByRank::from_size_and_rank(3, 1);
    staged.push(0, 7);
    staged.push(0, 8);
    staged.push(2, 9);
    assert_eq!(staged.get(0), &vec![7, 8]);
    assert_eq!(staged.get(1), &Vec::<i32>::new());
    assert_eq!(staged.get(2), &vec![9]);
    let drained = staged.take(0);
    assert_eq!(drained, vec![7, 8]);
    assert!(staged.get(0).is_empty());
    assert_eq!(staged.get(2), &vec![9]);
}
