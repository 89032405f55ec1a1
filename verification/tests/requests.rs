use block_analysis::requests::{Request, RequestEvent, RequestStep};
use block_analysis::retry::RetryConfig;

fn config(max_retries: u32) -> RetryConfig {
    RetryConfig { max_retries, base_delay_ms: 8, max_delay_ms: 20, jitter_permille: 0 }
}

/// Runs a request whose sends are answered in turn, and counts tokens and sends.
fn run(max_retries: u32, answers: &[RequestEvent]) -> (usize, usize, Vec<u64>) {
    let mut request = Request::new(config(max_retries));
    let (mut tokens, mut sends, mut delays) = (0, 0, Vec::new());
    loop {
        assert!(sends <= tokens);
        let event = match request.step() {
            RequestStep::TakeToken => {
                tokens += 1;
                RequestEvent::TokenTaken
            }
            RequestStep::Send => {
                sends += 1;
                answers[sends - 1]
            }
            RequestStep::Wait { delay_ms } => {
                delays.push(delay_ms);
                RequestEvent::Waited
            }
            RequestStep::Done => return (tokens, sends, delays),
        };
        request.on(event);
    }
}

#[test]
fn every_attempt_takes_a_token() {
    let down = RequestEvent::Failed { transient: true };
    assert_eq!(run(5, &[down, down, RequestEvent::Succeeded]), (3, 3, vec![8, 16]));
    assert_eq!(run(3, &[down, down, down, down]), (4, 4, vec![8, 16, 20]));
}

#[test]
fn a_first_answer_that_stands_takes_one_token() {
    assert_eq!(run(5, &[RequestEvent::Succeeded]), (1, 1, vec![]));
    assert_eq!(run(5, &[RequestEvent::Failed { transient: false }]), (1, 1, vec![]));
    assert_eq!(run(0, &[RequestEvent::Failed { transient: true }]), (1, 1, vec![]));
}

#[test]
fn events_out_of_turn_change_nothing() {
    let mut request = Request::new(config(1));
    for event in
        [RequestEvent::Succeeded, RequestEvent::Waited, RequestEvent::Failed { transient: true }]
    {
        request.on(event);
        assert_eq!(request.step(), RequestStep::TakeToken);
    }
    request.on(RequestEvent::TokenTaken);
    request.on(RequestEvent::TokenTaken);
    assert_eq!(request.step(), RequestStep::Send);
    request.on(RequestEvent::Failed { transient: true });
    assert_eq!(request.step(), RequestStep::Wait { delay_ms: 8 });
    assert_eq!(request.attempt(), 1);
    request.on(RequestEvent::Waited);
    request.on(RequestEvent::TokenTaken);
    request.on(RequestEvent::Succeeded);
    request.on(RequestEvent::TokenTaken);
    assert_eq!(request.step(), RequestStep::Done);
}
