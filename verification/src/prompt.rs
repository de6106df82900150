//! The prompt that asks for the summary of a pull request.

use vstd::prelude::*;
use vstd::string::StringExecFns;
use crate::document::str_views;

verus! {

/// What stands before the patch descriptions.
pub open spec fn summary_head() -> Seq<char> {
    "====\n"@
}

/// What stands after the patch descriptions: the instructions and an example.
pub open spec fn summary_tail() -> Seq<char> {
    "\n====\nAct as a Senior Developer and summarize the code patch descriptions above from a github pull request in concise way, please follow the instructions:\n- The fewer the parts the better\n- Only summarize the important parts into 2 to 4 parts, each part with a title of 10 words or less and a summary of 20 words or less\n\nFor example:\n```\n            ## PR Summary\n            * **Efficient table deletion**\n            The code now supports deleting all rows in a table more efficiently.\n\n            * **Improved readability**\n            Added comments throughout the codebase to enhance user understanding.\n            ```"@
}

/// The template: the head, the place of the variable `text`, the tail.
pub open spec fn summary_template() -> Seq<char> {
    summary_head() + "{text}"@ + summary_tail()
}

/// The prompt that asks a model to summarize the patch descriptions of a pull
/// request.
pub struct GithubPRSummaryPrompt {}

impl GithubPRSummaryPrompt {
    pub fn create() -> (p: GithubPRSummaryPrompt) {
        GithubPRSummaryPrompt {  }
    }

    fn tail() -> (t: &'static str)
        ensures
            t@ == summary_tail(),
    {
        "\n====\nAct as a Senior Developer and summarize the code patch descriptions above from a github pull request in concise way, please follow the instructions:\n- The fewer the parts the better\n- Only summarize the important parts into 2 to 4 parts, each part with a title of 10 words or less and a summary of 20 words or less\n\nFor example:\n```\n            ## PR Summary\n            * **Efficient table deletion**\n            The code now supports deleting all rows in a table more efficiently.\n\n            * **Improved readability**\n            Added comments throughout the codebase to enhance user understanding.\n            ```"
    }

    /// The template, with `{text}` where the patch descriptions go.
    pub fn template(&self) -> (t: String)
        ensures
            t@ == summary_template(),
    {
        let mut t = String::from_str("====\n");
        t.append("{text}");
        t.append(Self::tail());
        t
    }

    /// The names of the template's variables: `text` alone.
    pub fn variables(&self) -> (v: Vec<String>)
        ensures
            str_views(v@) == seq!["text"@],
    {
        let mut v: Vec<String> = Vec::new();
        v.push("text".to_owned());
        proof {
            assert(str_views(v@) =~= seq!["text"@]);
        }
        v
    }

    /// The prompt for the given patch descriptions: the template with `text`
    /// in the place of its variable.
    pub fn format(&self, text: &str) -> (prompt: String)
        ensures
            prompt@ == summary_head() + text@ + summary_tail(),
    {
        let mut prompt = String::from_str("====\n");
        prompt.append(text);
        prompt.append(Self::tail());
        prompt
    }
}

} // verus!
