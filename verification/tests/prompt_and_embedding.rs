use llmchain::document::Document;
use llmchain::embedding::{document_contents, query_embedding};
use llmchain::prompt::GithubPRSummaryPrompt;

const TAIL: &str = "\n====\nAct as a Senior Developer and summarize the code patch descriptions above from a github pull request in concise way, please follow the instructions:\n- The fewer the parts the better\n- Only summarize the important parts into 2 to 4 parts, each part with a title of 10 words or less and a summary of 20 words or less\n\nFor example:\n```\n            ## PR Summary\n            * **Efficient table deletion**\n            The code now supports deleting all rows in a table more efficiently.\n\n            * **Improved readability**\n            Added comments throughout the codebase to enhance user understanding.\n            ```";

#[test]
fn summary_template_text() {
    let prompt = GithubPRSummaryPrompt::create();
    assert_eq!(prompt.template(), format!("====\n{{text}}{}", TAIL));
    assert_eq!(prompt.variables(), vec!["text".to_string()]);
}

#[test]
fn summary_prompt_holds_the_text() {
    let prompt = GithubPRSummaryPrompt::create();
    assert_eq!(prompt.format("fix: a bug"), format!("====\nfix: a bug{}", TAIL));
    assert_eq!(prompt.format(""), format!("===={}{}", "\n", TAIL));
}

#[test]
fn contents_keep_the_documents_order() {
    let docs = vec![
        Document::create("1.md", "hello"),
        Document::create("2.md", "llmchain.rs"),
        Document::create("1.md", "hello"),
    ];
    assert_eq!(document_contents(&docs), vec!["hello", "llmchain.rs", "hello"]);
    assert!(document_contents(&[]).is_empty());
    assert_eq!(document_contents(&docs[1..2]), vec!["llmchain.rs"]);
}

#[test]
fn query_vector_is_the_first_answer() {
    let answer: Vec<Vec<f32>> = vec![vec![1.0, 0.0], vec![0.0, 1.0]];
    assert_eq!(query_embedding(answer), vec![1.0f32, 0.0]);
    assert_eq!(query_embedding(vec![vec![0.5f32]]), vec![0.5f32]);
    assert_eq!(query_embedding(Vec::<Vec<f32>>::new()), Vec::<f32>::new());
}
