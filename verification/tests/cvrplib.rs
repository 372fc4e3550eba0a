use hgs_cvrp::cvrplib::{instance_tokens, read_body, read_header, InstanceError};

const SMALL: &str = "NAME : tiny\nCOMMENT : three clients\nTYPE : CVRP\nDIMENSION : 4\nEDGE_WEIGHT_TYPE : EUC_2D\nCAPACITY : 10\nNODE_COORD_SECTION\n1 0 0\n2 3 4\n3 -1.5 2e1\n4 7 7\nDEMAND_SECTION\n1 0\n2 3\n3 4.5\n4 6\nDEPOT_SECTION\n1\n-1\nEOF\n";

fn token(content: &str, toks: &[(usize, usize)], k: usize) -> String {
    content[toks[k].0..toks[k].1].to_string()
}

#[test]
fn tokens_skip_the_first_three_lines() {
    let toks = instance_tokens(SMALL.as_bytes());
    assert_eq!(token(SMALL, &toks, 0), "DIMENSION");
    assert_eq!(token(SMALL, &toks, 1), ":");
    assert_eq!(token(SMALL, &toks, 2), "4");
    let expected: Vec<&str> = SMALL.split('\n').skip(3).flat_map(|l| l.split_whitespace()).collect();
    let got: Vec<String> = (0..toks.len()).map(|k| token(SMALL, &toks, k)).collect();
    assert_eq!(got, expected);
}

#[test]
fn tokens_split_at_unicode_white_space() {
    let text = "a\nb\nc\nx\u{00A0}y\u{3000}z\tw\u{2003}\u{2028}v é\u{0085}";
    let toks = instance_tokens(text.as_bytes());
    let got: Vec<String> = (0..toks.len()).map(|k| token(text, &toks, k)).collect();
    let expected: Vec<&str> = text.splitn(4, '\n').nth(3).unwrap().split_whitespace().collect();
    assert_eq!(got, expected);
    assert_eq!(got, vec!["x", "y", "z", "w", "v", "é"]);
}

#[test]
fn fewer_than_three_lines_leave_no_token() {
    assert!(instance_tokens("NAME : x\nDIMENSION : 3".as_bytes()).is_empty());
}

#[test]
fn header_and_body_of_a_small_instance() {
    let content = SMALL.as_bytes();
    let toks = instance_tokens(content);
    let header = read_header(content, &toks).ok().unwrap();
    assert_eq!(header.nb_clients, Some(3));
    assert_eq!(token(SMALL, &toks, header.capacity_token.unwrap()), "10");
    assert_eq!(header.duration_limit_token, None);
    assert_eq!(header.service_time_token, None);
    let body = read_body(content, &toks, header.body_start, 3).ok().unwrap();
    let c = body.coordinates_start;
    assert_eq!(token(SMALL, &toks, c + 3 * 2 + 1), "-1.5");
    assert_eq!(token(SMALL, &toks, c + 3 * 2 + 2), "2e1");
    assert_eq!(token(SMALL, &toks, body.demands_start + 2 * 2 + 1), "4.5");
}

fn header_error(text: &str) -> InstanceError {
    let toks = instance_tokens(text.as_bytes());
    match read_header(text.as_bytes(), &toks) {
        Err(e) => e,
        Ok(_) => panic!("header accepted"),
    }
}

#[test]
fn header_errors() {
    let pre = "N\nC\nT\n";
    assert!(matches!(header_error(&format!("{}DIMENSION : 4\n", pre)), InstanceError::EndOfInput));
    assert!(matches!(
        header_error(&format!("{}DIMENSION : x\nNODE_COORD_SECTION", pre)),
        InstanceError::BadValue(2)
    ));
    assert!(matches!(
        header_error(&format!("{}CAPACITY : 1.2.3\nNODE_COORD_SECTION", pre)),
        InstanceError::BadValue(2)
    ));
    assert!(matches!(
        header_error(&format!("{}DIMENSION : 4\nFOO : 1\nNODE_COORD_SECTION", pre)),
        InstanceError::UnexpectedData(3)
    ));
    assert!(matches!(
        header_error(&format!("{}CAPACITY : 10\nNODE_COORD_SECTION", pre)),
        InstanceError::NodesUndefined
    ));
    assert!(matches!(
        header_error(&format!("{}DIMENSION : 1\nNODE_COORD_SECTION", pre)),
        InstanceError::NodesUndefined
    ));
    assert!(matches!(
        header_error(&format!("{}DIMENSION : 0\nNODE_COORD_SECTION", pre)),
        InstanceError::NodesUndefined
    ));
}

#[test]
fn header_with_duration_and_service_time() {
    let text = "N\nC\nT\nDIMENSION : 3\nDISTANCE : 200\nSERVICE_TIME : 10\nCAPACITY : 5\nNODE_COORD_SECTION\n";
    let toks = instance_tokens(text.as_bytes());
    let h = read_header(text.as_bytes(), &toks).ok().unwrap();
    assert_eq!(h.nb_clients, Some(2));
    assert_eq!(token(text, &toks, h.duration_limit_token.unwrap()), "200");
    assert_eq!(token(text, &toks, h.service_time_token.unwrap()), "10");
    assert_eq!(token(text, &toks, h.capacity_token.unwrap()), "5");
    assert_eq!(h.body_start, 13);
}

fn body_error(body: &str, nb_clients: usize) -> InstanceError {
    let text = format!("N\nC\nT\nNODE_COORD_SECTION\n{}", body);
    let toks = instance_tokens(text.as_bytes());
    match read_body(text.as_bytes(), &toks, 1, nb_clients) {
        Err(e) => e,
        Ok(_) => panic!("body accepted"),
    }
}

#[test]
fn body_errors() {
    assert!(matches!(body_error("1 0 0\n2 1 1\n", 1), InstanceError::EndOfInput));
    assert!(matches!(body_error("x 0 0\n", 1), InstanceError::BadValue(1)));
    assert!(matches!(body_error("1 0 y\n", 1), InstanceError::BadValue(3)));
    assert!(matches!(body_error("1 0 0\n3 1 1\n", 1), InstanceError::NodeNumbering));
    assert!(matches!(
        body_error("1 0 0\n2 1 1\nDEMANDS\n", 1),
        InstanceError::UnexpectedData(7)
    ));
    assert!(matches!(
        body_error("1 0 0\n2 1 1\nDEMAND_SECTION\n1 0\n2 q\n", 1),
        InstanceError::BadValue(11)
    ));
    assert!(matches!(
        body_error("1 0 0\n2 1 1\nDEMAND_SECTION\n1 0\n2 1\nDEPOT_SECTION\n1\n-1\n", 1),
        InstanceError::EndOfInput
    ));
    assert!(matches!(
        body_error("1 0 0\n2 1 1\nDEMAND_SECTION\n1 0\n2 1\nDEPOTS\n1\n-1\nEOF", 1),
        InstanceError::UnexpectedData(12)
    ));
    assert!(matches!(
        body_error("1 0 0\n2 1 1\nDEMAND_SECTION\n1 0\n2 1\nDEPOT_SECTION\n2\n-1\nEOF", 1),
        InstanceError::DepotIndex(13)
    ));
    assert!(matches!(
        body_error("1 0 0\n2 1 1\nDEMAND_SECTION\n1 0\n2 1\nDEPOT_SECTION\n1\n-1\nEND", 1),
        InstanceError::UnexpectedData(15)
    ));
}
