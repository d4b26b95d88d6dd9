pub mod hand_rank;
pub mod standard_hand_ranker;
