use mastermind::feedback::score;
use mastermind::session::Session;
use mastermind::solver::{ConfigurationError, SolverError};
use mastermind::space::generate;

#[test]
fn session_starts_with_every_row_and_the_best_guess() {
    let session = Session::start(4, 6).unwrap();
    assert_eq!(session.pool(), &generate(4, 6));
    assert_eq!(session.guess(), &vec![1, 1, 0, 0]);
    assert_eq!(session.value_count(), 6);
    assert!(!session.is_solved());
}

#[test]
fn session_of_one_row_is_solved_from_the_start() {
    let session = Session::start(2, 1).unwrap();
    assert!(session.is_solved());
    assert_eq!(session.guess(), &vec![0, 0]);
    assert_eq!(session.pool(), &vec![vec![0, 0]]);
}

#[test]
fn session_refuses_a_bad_configuration() {
    assert_eq!(
        Session::start(0, 6).err(),
        Some(SolverError::Configuration(ConfigurationError::ZeroRowSize))
    );
    assert_eq!(
        Session::start(4, 0).err(),
        Some(SolverError::Configuration(ConfigurationError::ZeroValueCount))
    );
    assert_eq!(
        Session::start(12, 10).err(),
        Some(SolverError::Configuration(ConfigurationError::SpaceTooLarge))
    );
}

#[test]
fn full_match_solves_the_session() {
    let session = Session::start(4, 6).unwrap();
    let next = session.answer(4, 0).unwrap();
    assert!(next.is_solved());
    assert_eq!(next.pool(), &vec![vec![1, 1, 0, 0]]);
    assert_eq!(next.guess(), &vec![1, 1, 0, 0]);
    assert_eq!(next.value_count(), 6);
}

#[test]
fn refused_answer_leaves_the_session_as_it_was() {
    let session = Session::start(2, 2).unwrap();
    assert_eq!(session.answer(2, 1).err(), Some(SolverError::InvalidFeedback));
    assert_eq!(session.answer(0, 3).err(), Some(SolverError::InvalidFeedback));
    assert_eq!(session.answer(1, 1).err(), Some(SolverError::Inconsistent));
    assert_eq!(session.pool(), &generate(2, 2));
    assert_eq!(session.guess(), &vec![0, 0]);
    let next = session.answer(1, 0).unwrap();
    assert_eq!(next.pool(), &vec![vec![1, 0], vec![0, 1]]);
    assert_eq!(next.guess(), &vec![1, 0]);
    assert_eq!(session.pool().len(), 4);
}

#[test]
fn earlier_session_can_be_answered_again() {
    let session = Session::start(1, 3).unwrap();
    assert_eq!(session.guess(), &vec![0]);
    let wrong = session.answer(0, 0).unwrap();
    assert_eq!(wrong.pool(), &vec![vec![1], vec![2]]);
    let right = session.answer(1, 0).unwrap();
    assert!(right.is_solved());
    assert_eq!(right.guess(), &vec![0]);
}

#[test]
fn sessions_find_every_secret() {
    for secret in generate(2, 4) {
        let mut session = Session::start(2, 4).unwrap();
        let mut rounds = 0;
        while !session.is_solved() {
            let (black, white) = score(session.guess(), &secret, 4);
            session = session.answer(black, white).unwrap();
            assert!(session.pool().contains(&secret));
            rounds += 1;
            assert!(rounds <= 16);
        }
        assert_eq!(session.guess(), &secret);
    }
}
