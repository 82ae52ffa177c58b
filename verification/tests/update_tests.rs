use env_file::env_file::EnvFile;
use env_file::update::{plan_row, response_value, parse_prompt_reply, RowAction};

fn b(s: &str) -> Vec<u8> {
    s.as_bytes().to_vec()
}

fn chars(s: &str) -> Vec<char> {
    s.chars().collect()
}

fn parse_ok(s: &str) -> EnvFile {
    match EnvFile::parse(&b(s)) {
        Ok(f) => f,
        Err(_) => panic!("expected the text to parse"),
    }
}

/// Drives the update loop the way the front end does, feeding the given
/// replies to successive prompts; returns the prompts shown and the final
/// rendered output. Filled-ness is judged by the output's own rows, while
/// defaults and final values come from the seeded working mapping.
fn drive(
    input_text: &str,
    output_text: Option<&str>,
    only_empty: bool,
    only_filled: bool,
    replies: &[Option<&str>],
) -> (Vec<String>, String) {
    let input = parse_ok(input_text);
    let output = match output_text {
        Some(t) => {
            let mut o = parse_ok(t);
            o.apply_assign(&input.env(), false);
            o
        }
        None => parse_ok(input_text),
    };
    let present = output.env();
    let mut working = output.working();
    let mut buffer: Vec<u8> = Vec::new();
    let mut prompts: Vec<String> = Vec::new();
    let mut next_reply = 0;
    for row in input.stream() {
        match plan_row(row, &present, &working, only_empty, only_filled, &mut buffer) {
            RowAction::Skip => {}
            RowAction::Ask { prompt, key, default } => {
                prompts.push(String::from_utf8(prompt).unwrap());
                let raw: Vec<char> = match replies[next_reply] {
                    Some(r) => chars(&format!("{}\n", r)),
                    None => Vec::new(),
                };
                next_reply += 1;
                let reply = parse_prompt_reply(&raw)
                    .map(|kept| kept.into_iter().collect::<String>().into_bytes());
                let value = response_value(&default, reply);
                working.insert(key, value);
            }
        }
    }
    assert_eq!(next_reply, replies.len());
    let rendered = String::from_utf8(input.apply(&working, true).render()).unwrap();
    (prompts, rendered)
}

#[test]
fn scenario_only_empty_prompts_once() {
    // The output already holds KEY, so with only-empty semantics the flow
    // prompts only for OTHER (even though the seeding merge added it to the
    // working mapping), with the comment above it replayed and the template
    // value offered as default; the final file keeps KEY and the comment
    // while OTHER takes the reply.
    let (prompts, rendered) = drive(
        "KEY=\n# Prompt text\nOTHER=x\n",
        Some("KEY=hello\n"),
        true,
        false,
        &[Some("entered")],
    );
    assert_eq!(prompts, vec!["# Prompt text\nOTHER (x)".to_string()]);
    assert_eq!(rendered, "KEY=hello\n# Prompt text\nOTHER=entered\n");
}

#[test]
fn merge_flow_non_overwrite() {
    // Seeding with overwrite=false keeps the value already filled in and
    // adds the missing key; blank replies keep those defaults, so the
    // written file maps A to 1 and B to 3.
    let (prompts, rendered) = drive(
        "A=2\nB=3\n",
        Some("A=1\n"),
        false,
        false,
        &[Some(""), Some("")],
    );
    assert_eq!(prompts, vec!["A (1)".to_string(), "B (3)".to_string()]);
    assert_eq!(rendered, "A=1\nB=3\n");
}

#[test]
fn prompt_shows_default_and_empty_reply_keeps_it() {
    let (prompts, rendered) = drive(
        "A=1\nB=2\n",
        Some("A=kept\n"),
        false,
        false,
        &[Some(""), Some("")],
    );
    assert_eq!(prompts, vec!["A (kept)".to_string(), "B (2)".to_string()]);
    assert_eq!(rendered, "A=kept\nB=2\n");
}

#[test]
fn end_of_input_clears_the_variable() {
    let (prompts, rendered) = drive("A=1\n", Some("A=old\n"), false, false, &[None]);
    assert_eq!(prompts, vec!["A (old)".to_string()]);
    assert_eq!(rendered, "A=\n");
}

#[test]
fn only_filled_skips_absent_keys() {
    let (prompts, rendered) = drive(
        "A=1\nB=2\n",
        Some("A=set\n"),
        false,
        true,
        &[Some("new")],
    );
    assert_eq!(prompts, vec!["A (set)".to_string()]);
    assert_eq!(rendered, "A=new\nB=2\n");
}

#[test]
fn missing_output_starts_from_the_template() {
    let (prompts, rendered) = drive(
        "# greet\nNAME=world\n",
        None,
        false,
        false,
        &[Some("there")],
    );
    assert_eq!(prompts, vec!["# greet\nNAME (world)".to_string()]);
    assert_eq!(rendered, "# greet\nNAME=there\n");
}

#[test]
fn skipping_a_declaration_clears_the_comment_buffer() {
    // The comment above a skipped declaration must not leak into the next
    // prompt.
    let (prompts, _) = drive(
        "# about A\nA=1\n# about B\nB=2\n",
        Some("A=filled\n"),
        true,
        false,
        &[Some("v")],
    );
    assert_eq!(prompts, vec!["# about B\nB (2)".to_string()]);
}

#[test]
fn prompt_reply_rules() {
    assert!(parse_prompt_reply(&chars("")).is_none());
    assert_eq!(parse_prompt_reply(&chars("abc\n")).unwrap(), chars("abc"));
    assert_eq!(parse_prompt_reply(&chars("abc  \t\n")).unwrap(), chars("abc"));
    assert_eq!(parse_prompt_reply(&chars("\n")).unwrap(), chars(""));
    // Unicode whitespace (here a no-break space) is stripped too.
    assert_eq!(parse_prompt_reply(&chars("abc\u{00A0}\n")).unwrap(), chars("abc"));
    assert_eq!(parse_prompt_reply(&chars("\u{2003}\n")).unwrap(), chars(""));
}

#[test]
fn response_value_rules() {
    assert_eq!(response_value(&b("dft"), None), b(""));
    assert_eq!(response_value(&b("dft"), Some(b(""))), b("dft"));
    assert_eq!(response_value(&b("dft"), Some(b("typed"))), b("typed"));
}
