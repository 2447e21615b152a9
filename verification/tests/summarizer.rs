use synopsis_service::splitter::ChunkSplitter;
use synopsis_service::summarizer::{
    Progress, SummarizationError, Summarize, SummarizeActor, WordCountRange, MAX_TOKENS,
};
use tokenizers::Tokenizer;

const TOTAL: &str = r#"{"version":"1.0","truncation":null,"padding":null,"added_tokens":[],"normalizer":null,"pre_tokenizer":{"type":"Whitespace"},"post_processor":null,"decoder":null,"model":{"type":"WordLevel","vocab":{"[UNK]":0,"one":1,"two":2},"unk_token":"[UNK]"}}"#;

const PARTIAL: &str = r#"{"version":"1.0","truncation":null,"padding":null,"added_tokens":[],"normalizer":null,"pre_tokenizer":{"type":"Whitespace"},"post_processor":null,"decoder":null,"model":{"type":"WordLevel","vocab":{"a":0,"b":1},"unk_token":"[UNK]"}}"#;

fn tokenizer(definition: &str) -> Tokenizer {
    Tokenizer::from_bytes(definition.as_bytes()).expect("a tokenizer definition")
}

fn actor(max_tokens: usize) -> SummarizeActor {
    SummarizeActor::new(ChunkSplitter::new_unchecked(tokenizer(TOTAL), max_tokens).unwrap())
}

fn request(text: &str, min: usize, max: usize) -> Summarize {
    Summarize {
        text: text.to_owned(),
        range: WordCountRange { min, max },
    }
}

/// Runs a request to its end, asking `model` for each summary; gives the
/// result and the chunks that the model was asked for, in order.
fn run(
    actor: &SummarizeActor,
    msg: Summarize,
    mut model: impl FnMut(&str) -> Result<String, String>,
) -> (Result<String, SummarizationError>, Vec<String>) {
    let mut asked = Vec::new();
    let mut progress = actor.handle(msg);
    loop {
        match progress {
            Progress::Finished(result) => return (result, asked),
            Progress::Awaiting(state) => {
                let chunk = state.pending_chunk().clone();
                assert!(asked.len() < 10_000, "the run does not end");
                let answer = model(&chunk);
                asked.push(chunk);
                progress = actor.resume(state, answer);
            }
        }
    }
}

fn first_words(text: &str, count: usize) -> String {
    text.split_whitespace().take(count).collect::<Vec<&str>>().join(" ")
}

fn halved(text: &str) -> String {
    first_words(text, (text.split_whitespace().count() + 1) / 2)
}

fn numbered_words(count: usize) -> String {
    (0..count).map(|n| format!("w{}", n)).collect::<Vec<String>>().join(" ")
}

fn sentences(count: usize) -> String {
    (0..count)
        .map(|n| format!("Sentence number {} has six words.", n))
        .collect::<Vec<String>>()
        .join(" ")
}

#[test]
fn test_summarize_actor() {
    let actor = actor(MAX_TOKENS);
    let input: &str = "In findings published Tuesday in Cornell University's arXiv by a team of scientists \
        from the University of Montreal and a separate report published Wednesday in Nature Astronomy by a team \
        from University College London (UCL), the presence of water vapour was confirmed in the atmosphere of K2-18b, \
        a planet circling a star in the constellation Leo. This is the first such discovery in a planet in its star's \
        habitable zone — not too hot and not too cold for liquid water to exist. The Montreal team, led by Björn Benneke, \
        used data from the NASA's Hubble telescope to assess changes in the light coming from K2-18b's star as the planet \
        passed between it and Earth. They found that certain wavelengths of light, which are usually absorbed by water, \
        weakened when the planet was in the way, indicating not only does K2-18b have an atmosphere, but the atmosphere \
        contains water in vapour form. The team from UCL then analyzed the Montreal team's data using their own software \
        and confirmed their conclusion. This was not the first time scientists have found signs of water on an exoplanet, \
        but previous discoveries were made on planets with high temperatures or other pronounced differences from Earth. \
        \"This is the first potentially habitable planet where the temperature is right and where we now know there is water,\" \
        said UCL astronomer Angelos Tsiaras. \"It's the best candidate for habitability right now.\" \"It's a good sign\", \
        said Ryan Cloutier of the Harvard–Smithsonian Center for Astrophysics, who was not one of either study's authors. \
        \"Overall,\" he continued, \"the presence of water in its atmosphere certainly improves the prospect of K2-18b being \
        a potentially habitable planet, but further observations will be required to say for sure. \"
        K2-18b was first identified in 2015 by the Kepler space telescope. It is about 110 light-years from Earth and larger \
        but less dense. Its star, a red dwarf, is cooler than the Sun, but the planet's orbit is much closer, such that a year \
        on K2-18b lasts 33 Earth days. According to The Guardian, astronomers were optimistic that NASA's James Webb space \
        telescope — scheduled for launch in 2021 — and the European Space Agency's 2028 ARIEL program, could reveal more \
        about exoplanets like K2-18b.";
    let expected_output: &str = "K2-18b is a planet in its star's habitable zone, not too hot and not too cold for liquid water to exist. Scientists used data from the NASA's Hubble telescope to assess changes in the light coming from K2- 18b's star. They found that certain wavelengths of light, which are usually absorbed by water, weakened when the planet was in the way. Astronomers were optimistic that NASA's James Webb space telescope — scheduled for launch in 2021 — and the European Space Agency's 2028 ARIEL program, could reveal more about exoplanets like K2-18b. According to The Guardian, astronomers were optimistic.";
    let (summary, asked) = run(
        &actor,
        Summarize {
            text: input.to_owned(),
            range: WordCountRange { min: 50, max: 100 },
        },
        |_| Ok(expected_output.to_owned()),
    );
    let summary: String = summary.expect("failed to summarize");

    assert_eq!(summary, expected_output);
    assert_eq!(asked.len(), 1);
    assert_eq!(
        asked[0],
        input.split_whitespace().collect::<Vec<&str>>().join(" ")
    );
}

#[test]
fn summary_within_the_range_ends_the_run_after_one_pass() {
    let actor = actor(MAX_TOKENS);
    let (result, asked) = run(&actor, request("  a   long text\nto shorten ", 2, 3), |_| {
        Ok("  short text \n".to_owned())
    });
    assert_eq!(result.unwrap(), "short text");
    assert_eq!(asked, vec!["a long text to shorten".to_string()]);
}

#[test]
fn bounds_of_the_range_are_inclusive() {
    let actor = actor(MAX_TOKENS);
    let (result, asked) = run(&actor, request("some text", 3, 5), |_| Ok("a b c".to_owned()));
    assert_eq!(result.unwrap(), "a b c");
    assert_eq!(asked.len(), 1);
    let (result, asked) = run(&actor, request("some text", 1, 3), |_| Ok("a b c".to_owned()));
    assert_eq!(result.unwrap(), "a b c");
    assert_eq!(asked.len(), 1);
    let (result, asked) = run(&actor, request("some text", 4, 5), |_| Ok("a b c".to_owned()));
    assert_eq!(result.unwrap(), "a b c");
    assert_eq!(asked.len(), 2);
}

#[test]
fn repeated_summary_ends_the_run() {
    let actor = actor(MAX_TOKENS);
    let (result, asked) = run(&actor, request("never short enough for this", 1, 2), |chunk| {
        Ok(chunk.to_owned())
    });
    assert_eq!(result.unwrap(), "never short enough for this");
    assert_eq!(
        asked,
        vec![
            "never short enough for this".to_string(),
            "never short enough for this".to_string(),
        ]
    );
}

#[test]
fn run_goes_on_until_the_summary_repeats() {
    let actor = actor(MAX_TOKENS);
    let (result, asked) = run(&actor, request(&numbered_words(40), 1, 2), |chunk| {
        let words = chunk.split_whitespace().count();
        Ok(first_words(chunk, words.saturating_sub(10).max(5)))
    });
    assert_eq!(result.unwrap(), "w0 w1 w2 w3 w4");
    assert_eq!(asked.len(), 5);
    assert_eq!(asked[4], "w0 w1 w2 w3 w4");
}

#[test]
fn inverted_range_stops_only_at_a_repeated_summary() {
    let actor = actor(MAX_TOKENS);
    let (result, asked) = run(&actor, request(&numbered_words(16), 10, 2), halved_ok);
    assert_eq!(result.unwrap(), "w0");
    assert_eq!(asked.len(), 5);
    assert_eq!(asked[3], "w0 w1");
    assert_eq!(asked[4], "w0");
    assert!(!WordCountRange { min: 10, max: 2 }.contains(5));
    assert!(!WordCountRange { min: 10, max: 2 }.contains(10));
    assert!(!WordCountRange { min: 10, max: 2 }.contains(2));
}

fn halved_ok(chunk: &str) -> Result<String, String> {
    Ok(halved(chunk))
}

#[test]
fn four_hundred_words_shrink_into_the_range() {
    let actor = actor(MAX_TOKENS);
    let (result, asked) = run(&actor, request(&numbered_words(400), 50, 100), halved_ok);
    let summary = result.unwrap();
    assert_eq!(summary, numbered_words(100));
    assert_eq!(summary.trim(), summary);
    assert_eq!(summary.split_whitespace().count(), 100);
    assert_eq!(asked.len(), 2);
}

#[test]
fn empty_text_ends_at_once_with_the_empty_summary() {
    let actor = actor(MAX_TOKENS);
    let (result, asked) = run(&actor, request("", 50, 100), |_| Ok("never asked".to_owned()));
    assert_eq!(result.unwrap(), "");
    assert!(asked.is_empty());
    let (result, asked) = run(&actor, request("", 0, 0), |_| Ok("never asked".to_owned()));
    assert_eq!(result.unwrap(), "");
    assert!(asked.is_empty());
}

#[test]
fn text_of_white_space_ends_at_once_with_the_empty_summary() {
    let actor = actor(MAX_TOKENS);
    let (result, asked) = run(&actor, request(" \n\t\u{00A0} ", 1, 5), |_| {
        Ok("never asked".to_owned())
    });
    assert_eq!(result.unwrap(), "");
    assert!(asked.is_empty());
}

#[test]
fn empty_summary_out_of_range_ends_with_the_empty_summary() {
    let actor = actor(MAX_TOKENS);
    let (result, asked) = run(&actor, request("some text", 1, 5), |_| Ok("  ".to_owned()));
    assert_eq!(result.unwrap(), "");
    assert_eq!(asked.len(), 1);
}

#[test]
fn chunks_are_summarized_in_order_and_joined_by_single_spaces() {
    let actor = actor(7);
    let (result, asked) = run(&actor, request(&sentences(3), 3, 3), |chunk| {
        Ok(first_words(chunk, 3)[16..].to_owned())
    });
    assert_eq!(result.unwrap(), "0 1 2");
    assert_eq!(
        asked,
        vec![
            "Sentence number 0 has six words.".to_string(),
            "Sentence number 1 has six words.".to_string(),
            "Sentence number 2 has six words.".to_string(),
        ]
    );
}

#[test]
fn summaries_are_joined_as_they_are_and_trimmed_at_the_end() {
    let actor = actor(7);
    let (result, _) = run(&actor, request(&sentences(2), 2, 2), |_| Ok(" x ".to_owned()));
    assert_eq!(result.unwrap(), "x   x");
}

#[test]
fn next_pass_splits_the_summary_of_the_pass_before() {
    let actor = actor(7);
    let mut pass = 0;
    let (result, asked) = run(&actor, request(&sentences(2), 1, 1), |chunk| {
        pass += 1;
        if pass <= 2 {
            Ok(chunk.to_owned())
        } else {
            Ok("done".to_owned())
        }
    });
    assert_eq!(result.unwrap(), "done");
    assert_eq!(asked.len(), 5);
    assert_eq!(asked[2], "Sentence number 0 has six words.");
    assert_eq!(asked[3], "Sentence number 1 has six words.");
    assert_eq!(asked[4], "done done");
}

#[test]
fn failure_of_the_model_ends_the_run_with_its_message() {
    let actor = actor(7);
    let mut calls = 0;
    let (result, asked) = run(&actor, request(&sentences(3), 1, 2), |chunk| {
        calls += 1;
        if calls == 2 {
            Err("out of memory".to_owned())
        } else {
            Ok(chunk.to_owned())
        }
    });
    match result {
        Err(SummarizationError::RuntimeError(message)) => assert_eq!(message, "out of memory"),
        other => panic!("unexpected result: {:?}", other),
    }
    assert_eq!(asked.len(), 2);
}

#[test]
fn checked_actor_fails_on_text_that_the_tokenizer_cannot_encode() {
    let actor = SummarizeActor::new(ChunkSplitter::new(tokenizer(PARTIAL), MAX_TOKENS).unwrap());
    let (result, asked) = run(&actor, request("a b c", 1, 2), |_| Ok("a".to_owned()));
    assert!(matches!(result, Err(SummarizationError::TokenizationError)));
    assert!(asked.is_empty());
    let (result, asked) = run(&actor, request("a b a b", 1, 2), |_| Ok("z".to_owned()));
    assert_eq!(result.unwrap(), "z");
    assert_eq!(asked.len(), 1);
    let (result, asked) = run(&actor, request("a b a b", 3, 3), |chunk| {
        if chunk == "a b a b" {
            Ok("a q".to_owned())
        } else {
            Ok("b".to_owned())
        }
    });
    assert!(matches!(result, Err(SummarizationError::TokenizationError)));
    assert_eq!(asked.len(), 1);
}

#[test]
fn run_fails_where_a_chunk_has_too_many_tokens() {
    let spelling = r#"{"version":"1.0","truncation":null,"padding":null,"added_tokens":[],"normalizer":{"type":"Replace","pattern":{"String":"x"},"content":"a b"},"pre_tokenizer":{"type":"Whitespace"},"post_processor":null,"decoder":null,"model":{"type":"WordLevel","vocab":{"[UNK]":0,"a":1,"b":2},"unk_token":"[UNK]"}}"#;
    let actor =
        SummarizeActor::new(ChunkSplitter::new_unchecked(tokenizer(spelling), 1).unwrap());
    let (result, asked) = run(&actor, request("a x", 1, 1), |_| Ok("a".to_owned()));
    assert!(matches!(result, Err(SummarizationError::OversizedChunk)));
    assert!(asked.is_empty());
    let (result, asked) = run(&actor, request("a b", 1, 1), |chunk| {
        if chunk == "a" {
            Ok("x".to_owned())
        } else {
            Ok("b".to_owned())
        }
    });
    assert!(matches!(result, Err(SummarizationError::OversizedChunk)));
    assert_eq!(asked, vec!["a".to_string(), "b".to_string()]);
}

#[test]
fn every_chunk_handed_out_is_within_the_capacity() {
    let counter = ChunkSplitter::new_unchecked(tokenizer(TOTAL), 9).unwrap();
    let actor = actor(9);
    let (result, asked) = run(&actor, request(&sentences(8), 1, 3), halved_ok);
    assert!(result.is_ok());
    assert!(asked.len() > 8);
    for chunk in &asked {
        assert!(counter.count(chunk).unwrap() <= 9, "chunk {:?}", chunk);
        assert!(!chunk.is_empty());
        assert_eq!(chunk.trim(), chunk);
    }
}

#[test]
fn state_shows_the_texts_of_the_pass() {
    let actor = actor(MAX_TOKENS);
    let progress = actor.handle(request(" first  text ", 7, 9));
    let state = match progress {
        Progress::Awaiting(state) => state,
        other => panic!("unexpected progress: {:?}", other),
    };
    assert_eq!(state.current_text(), "first text");
    assert_eq!(state.previous_summary(), "");
    assert_eq!(state.pending_chunk(), "first text");
    let progress = actor.resume(state, Ok("second text ".to_owned()));
    let state = match progress {
        Progress::Awaiting(state) => state,
        other => panic!("unexpected progress: {:?}", other),
    };
    assert_eq!(state.current_text(), "second text ");
    assert_eq!(state.previous_summary(), "second text ");
    assert_eq!(state.pending_chunk(), "second text");
}

#[test]
fn pass_over_a_text_that_was_not_split_fails() {
    let progress = Progress::begin(
        WordCountRange { min: 1, max: 2 },
        "some text".to_owned(),
        String::new(),
        Err(SummarizationError::TokenizationError),
    );
    assert!(matches!(
        progress,
        Progress::Finished(Err(SummarizationError::TokenizationError))
    ));
    let progress = Progress::begin(
        WordCountRange { min: 1, max: 2 },
        "some text".to_owned(),
        String::new(),
        Err(SummarizationError::OversizedChunk),
    );
    assert!(matches!(
        progress,
        Progress::Finished(Err(SummarizationError::OversizedChunk))
    ));
}

#[test]
fn pass_over_a_text_without_chunks_ends_with_the_empty_summary() {
    let progress = Progress::begin(
        WordCountRange { min: 1, max: 2 },
        " ".to_owned(),
        "before".to_owned(),
        Ok(vec![]),
    );
    match progress {
        Progress::Finished(Ok(summary)) => assert_eq!(summary, ""),
        other => panic!("unexpected progress: {:?}", other),
    }
}

#[test]
fn pass_over_chunks_waits_for_each_in_turn() {
    let actor = actor(MAX_TOKENS);
    let progress = Progress::begin(
        WordCountRange { min: 2, max: 2 },
        "first. second.".to_owned(),
        "before".to_owned(),
        Ok(vec!["first.".to_owned(), "second.".to_owned()]),
    );
    let state = match progress {
        Progress::Awaiting(state) => state,
        other => panic!("unexpected progress: {:?}", other),
    };
    assert_eq!(state.current_text(), "first. second.");
    assert_eq!(state.previous_summary(), "before");
    assert_eq!(state.pending_chunk(), "first.");
    let state = match actor.resume(state, Ok("one".to_owned())) {
        Progress::Awaiting(state) => state,
        other => panic!("unexpected progress: {:?}", other),
    };
    assert_eq!(state.current_text(), "first. second.");
    assert_eq!(state.previous_summary(), "before");
    assert_eq!(state.pending_chunk(), "second.");
    match actor.resume(state, Ok("two ".to_owned())) {
        Progress::Finished(Ok(summary)) => assert_eq!(summary, "one two"),
        other => panic!("unexpected progress: {:?}", other),
    }
}

#[test]
fn pass_that_repeats_the_summary_before_it_ends_the_run() {
    let actor = actor(MAX_TOKENS);
    let progress = Progress::begin(
        WordCountRange { min: 1, max: 1 },
        "a b c".to_owned(),
        "a b  c ".to_owned(),
        Ok(vec!["a b".to_owned(), "c".to_owned()]),
    );
    let state = match progress {
        Progress::Awaiting(state) => state,
        other => panic!("unexpected progress: {:?}", other),
    };
    let state = match actor.resume(state, Ok("a b ".to_owned())) {
        Progress::Awaiting(state) => state,
        other => panic!("unexpected progress: {:?}", other),
    };
    match actor.resume(state, Ok("c ".to_owned())) {
        Progress::Finished(Ok(summary)) => assert_eq!(summary, "a b  c"),
        other => panic!("unexpected progress: {:?}", other),
    }
}

#[test]
fn range_contains_its_bounds() {
    let range = WordCountRange { min: 50, max: 100 };
    assert!(!range.contains(49));
    assert!(range.contains(50));
    assert!(range.contains(75));
    assert!(range.contains(100));
    assert!(!range.contains(101));
    assert!(WordCountRange { min: 0, max: 0 }.contains(0));
    assert!(!WordCountRange { min: 0, max: 0 }.contains(1));
}

#[test]
fn failures_have_messages() {
    assert_eq!(
        SummarizationError::RuntimeError("out of memory".to_owned()).message(),
        "runetime error: out of memory"
    );
    assert_eq!(
        SummarizationError::ConfigurationError.message(),
        "configuration error: chunks of no tokens"
    );
    assert_eq!(
        SummarizationError::TokenizationError.message(),
        "tokenization error: the tokenizer cannot encode the text"
    );
    assert_eq!(
        SummarizationError::OversizedChunk.message(),
        "oversized chunk: a chunk has more tokens than the model takes"
    );
}

#[test]
fn model_takes_at_most_512_tokens() {
    assert_eq!(MAX_TOKENS, 512);
}
