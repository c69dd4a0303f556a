use did::{DecentralizedIdentifer, DecentralizedIdentiferParam, DecentralizedIdentiferUrl};
use regex::Regex;

const PARAM_CHAR: &str = r"(?:[A-Za-z0-9.\-_:]|%[0-9a-fA-F][0-9a-fA-F])";
const PCHAR: &str = r"(?:[A-Za-z0-9\-._~:@]|%[0-9a-fA-F][0-9a-fA-F]|[!$&'()*+,;=])";
const QCHAR: &str = r"(?:[A-Za-z0-9\-._~:@/?]|%[0-9a-fA-F][0-9a-fA-F]|[!$&'()*+,;=])";

fn all_strings(alphabet: &[char], max_len: usize) -> Vec<String> {
    let mut out = vec![String::new()];
    let mut layer = vec![String::new()];
    for _ in 0..max_len {
        let mut next = Vec::new();
        for s in &layer {
            for c in alphabet {
                let mut t = s.clone();
                t.push(*c);
                next.push(t);
            }
        }
        out.extend(next.iter().cloned());
        layer = next;
    }
    out
}

#[test]
fn param_grammar_agrees_with_pattern() {
    let re = Regex::new(&format!("^{p}+(?:={p}*)?$", p = PARAM_CHAR)).unwrap();
    for s in all_strings(&['a', '=', '%', '4', ':', ';', 'g'], 5) {
        assert_eq!(DecentralizedIdentiferParam::decode(&s).is_ok(), re.is_match(&s), "{}", s);
    }
}

#[test]
fn did_grammar_agrees_with_pattern() {
    let re = Regex::new(r"^did:[a-z0-9]+:[A-Za-z0-9.\-_:]*$").unwrap();
    for s in all_strings(&['d', 'i', ':', 'A', '1', '.', ';', '/'], 6) {
        let text = format!("did:{}", s);
        assert_eq!(DecentralizedIdentifer::decode(&text).is_ok(), re.is_match(&text), "{}", text);
    }
}

#[test]
fn did_url_grammar_agrees_with_pattern() {
    let re = Regex::new(&format!(
        "^did:[a-z0-9]+:[A-Za-z0-9.\\-_:]*(?:;{p}+=?{p}*)*(?:/{pc}*)*(?:\\?{q}*)?(?:#{q}*)?$",
        p = PARAM_CHAR,
        pc = PCHAR,
        q = QCHAR
    ))
    .unwrap();
    let query_ok = |text: &str| -> bool {
        // the query's pieces, split on '&', must each be a parameter or empty
        let before_fragment = text.split('#').next().unwrap();
        let query = match before_fragment.find('?') {
            Some(i) => &before_fragment[i + 1..],
            None => return true,
        };
        query.split('&').filter(|p| !p.is_empty()).all(|p| DecentralizedIdentiferParam::decode(p).is_ok())
    };
    for s in all_strings(&['a', ':', ';', '=', '/', '?', '#', '%', '&'], 5) {
        let text = format!("did:m:{}", s);
        let expected = re.is_match(&text) && query_ok(&text);
        assert_eq!(DecentralizedIdentiferUrl::decode(&text).is_ok(), expected, "{}", text);
    }
}
