use chess_search::certs::Cert;
use chess_search::synth;

#[test]
fn certificate_json_lists_nodes_and_vocabulary() {
    let c = Cert { board: 4, root: 3, nodes: vec![[0, 0, 1, 0], [3, -1, 2, 0]] };
    let s = synth::to_json(&c, &vec![0, 3]);
    assert_eq!(
        s,
        "{\"format\":\"mini-rook-safety-dag-v1\",\"board\":4,\"root\":3,\"nodes\":[[0,0,1,0],[3,-1,2,0]],\"vocabulary\":[\"opponent_to_move\",\"own_king_edge_distance\"]}"
    );
}

#[test]
fn certificate_json_of_a_terminal_root() {
    let c = Cert { board: 5, root: 1, nodes: vec![] };
    assert_eq!(
        synth::to_json(&c, &vec![]),
        "{\"format\":\"mini-rook-safety-dag-v1\",\"board\":5,\"root\":1,\"nodes\":[],\"vocabulary\":[]}"
    );
}
