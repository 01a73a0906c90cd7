use raxiom::communication::MpiWorld;
use raxiom::communication::Network;
use raxiom::communication::StaticUniverse;
use raxiom::communication::SystemCommunicator;
use raxiom::communication::Tag;

fn world_of(rank: usize, size: usize, tag: i32) -> MpiWorld<i32> {
    MpiWorld::new(SystemCommunicator { rank, size }, Tag(tag))
}

#[test]
fn immediate_send_receive() {
    let world: MpiWorld<i32> = MpiWorld::new(SystemCommunicator { rank: 0, size: 1 }, Tag::default());
    let mut net: Network<i32> = Network::new(1);
    let x: Vec<i32> = vec![1, 2, 3];
    let guard = world.immediate_send_vec(&mut net, 0, x);
    let result: Vec<i32> = world.receive_vec(&mut net, 0);
    assert_eq!(guard.unwrap().wait(), 3);
    assert_eq!(result, &[1, 2, 3]);
}

#[test]
fn send_receive() {
    let world0 = world_of(0, 2, 0);
    let world1 = world_of(1, 2, 0);
    let mut net: Network<i32> = Network::new(2);
    let x0: Vec<i32> = vec![1, 2, 3];
    let x1: Vec<i32> = vec![3, 2, 1];
    world0.blocking_send_vec(&mut net, 1, x0.clone());
    assert_eq!(world1.receive_vec(&mut net, 0), x0);
    world1.blocking_send_vec(&mut net, 0, x1.clone());
    assert_eq!(world0.receive_vec(&mut net, 1), x1);
}

#[test]
fn send_receive_pairs_in_call_order() {
    // within one channel and pair, messages pair up strictly FIFO
    let world0 = world_of(0, 2, 0);
    let world1 = world_of(1, 2, 0);
    let mut net: Network<i32> = Network::new(2);
    world0.blocking_send_vec(&mut net, 1, vec![1]);
    world0.blocking_send_vec(&mut net, 1, Vec::new());
    world0.blocking_send_vec(&mut net, 1, vec![7, 8]);
    assert_eq!(world1.receive_vec(&mut net, 0), vec![1]);
    assert_eq!(world1.receive_vec(&mut net, 0), Vec::<i32>::new());
    assert_eq!(world1.receive_vec(&mut net, 0), vec![7, 8]);
}

#[test]
fn all_gather_returns_every_contribution_to_every_rank() {
    let worlds = vec![world_of(0, 3, 4), world_of(1, 3, 4), world_of(2, 3, 4)];
    let contributions = vec![10, 20, 30];
    let gathered = MpiWorld::all_gather(&worlds, &contributions).unwrap();
    assert_eq!(gathered.len(), 3);
    for row in gathered.iter() {
        assert_eq!(row, &contributions);
    }
}

#[test]
fn all_gather_aborts_on_tag_mismatch() {
    // rank 0 enters the collective on channel 5, rank 1 on channel 6:
    // fatal before any payload transfer, naming the offending rank
    let worlds = vec![world_of(0, 2, 5), world_of(1, 2, 6)];
    match MpiWorld::all_gather(&worlds, &vec![1, 2]) {
        Ok(_) => panic!("a tag mismatch must not gather anything"),
        Err(mismatch) => {
            assert_eq!(mismatch.rank, 1);
            assert_eq!(mismatch.tag, 6);
        },
    }
}

#[test]
fn all_gather_vec_returns_per_rank_mapping() {
    let worlds = vec![world_of(0, 2, 1), world_of(1, 2, 1)];
    let contributions = vec![vec![1, 2], vec![3, 4]];
    let gathered = MpiWorld::all_gather_vec(&worlds, &contributions).unwrap();
    assert_eq!(gathered.len(), 2);
    for received in gathered.iter() {
        assert_eq!(received.get(0), &vec![1, 2]);
        assert_eq!(received.get(1), &vec![3, 4]);
    }
}

#[test]
fn all_gather_varcount_concatenates_in_rank_order() {
    let worlds = vec![world_of(0, 3, 2), world_of(1, 3, 2), world_of(2, 3, 2)];
    let contributions = vec![vec![1], vec![], vec![2, 3, 4]];
    let counts = vec![1, 0, 3];
    let gathered = MpiWorld::all_gather_varcount(&worlds, &contributions, &counts).unwrap();
    assert_eq!(gathered.len(), 3);
    for row in gathered.iter() {
        assert_eq!(row, &vec![1, 2, 3, 4]);
    }
}

#[test]
fn all_ranks_have_same_value_compares_all() {
    assert!(MpiWorld::<i32>::all_ranks_have_same_value(&vec![5, 5, 5]));
    assert!(!MpiWorld::<i32>::all_ranks_have_same_value(&vec![5, 5, 6]));
    assert!(MpiWorld::<i32>::all_ranks_have_same_value(&Vec::new()));
}

#[test]
fn universe_hands_out_identity_until_torn_down() {
    let mut universe = StaticUniverse::new(1, 4);
    let world = universe.world();
    assert_eq!(world.rank, 1);
    assert_eq!(world.size, 4);
    universe.drop();
}
