use ai::prompt::{format_prompt, MAX_LINE_LENGTH};

#[test]
fn test_build_prompt() {
    let p = format_prompt("Limit your response to {MAX_LINE_LENGTH} characters.");
    assert_eq!(p, format!("Limit your response to {} characters.", MAX_LINE_LENGTH));
}

#[test]
fn format_prompt_replaces_every_placeholder() {
    assert_eq!(format_prompt("{MAX_LINE_LENGTH}/{MAX_LINE_LENGTH}"), "300/300");
    assert_eq!(format_prompt("no placeholder"), "no placeholder");
}

use ai::memory::{Entry, Memory, Sender};
use ai::prompt::build_prompt;

fn empty_memory() -> Memory {
    Memory::load(&Vec::new(), &Vec::new(), 0)
}

fn say(memory: &mut Memory, user: &str, sender: Sender, receiver: &str, time: i64, text: &str) {
    memory.add_entry(user, Entry { sender, receiver: receiver.to_string(), timestamp: time, message: text.to_string() });
}

#[test]
fn build_prompt_with_memory() {
    let mut memory = empty_memory();
    say(&mut memory, "user1", Sender::User, "#test_channel", 1, "Hello!");
    say(&mut memory, "user1", Sender::Assistant, "#test_channel", 2, "Hi there!");
    let result = build_prompt("Test query", "user1", "#test_channel", &memory, "Limit: {MAX_LINE_LENGTH}.");
    assert_eq!(result.len(), 4);
    assert_eq!(result[0].role, "system");
    assert_eq!(result[0].content, "Limit: 300.");
    assert_eq!(result[1].role, "user");
    assert_eq!(result[1].content, "Hello!");
    assert_eq!(result[2].role, "assistant");
    assert_eq!(result[2].content, "Hi there!");
    assert_eq!(result[3].role, "user");
    assert_eq!(result[3].content, "Test query");
}

#[test]
fn build_prompt_with_custom_prompt() {
    let memory = empty_memory();
    let result = build_prompt("Test query", "user1", "#test_channel", &memory, "This is a test prompt.");
    assert_eq!(result.len(), 2);
    assert_eq!(result[0].role, "system");
    assert_eq!(result[0].content, "This is a test prompt.");
    assert_eq!(result[1].role, "user");
    assert_eq!(result[1].content, "Test query");
}

use ai::output::sanitize_output;

#[test]
fn sanitize_output_redacts_and_flattens() {
    assert_eq!(sanitize_output("error with key123\nat line", &Some("key123")), "error with [REDACTED]at line");
    assert_eq!(sanitize_output("short", &None), "short");
}

#[test]
fn sanitize_output_cuts_long_text() {
    let long = "x".repeat(400);
    let out = sanitize_output(&long, &None);
    assert_eq!(out, format!("{}...", "x".repeat(300)));
    let exact = "y".repeat(300);
    assert_eq!(sanitize_output(&exact, &None), exact);
}
