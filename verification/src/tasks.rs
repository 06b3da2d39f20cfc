//! Handles for the nodes of the chat workflow graph.
//!
//! The control plane runs a small acyclic graph of tasks around the
//! trading core.  The execution steps — LLM calls, broker reports,
//! session storage — are I/O and run in the workflow shell outside the
//! library; these are the node handles the graph is wired from.

use vstd::prelude::*;

verus! {

/// Reports on Binance operations within the workflow.
pub struct BinanceReportingTask;

impl BinanceReportingTask {
    pub fn new() -> BinanceReportingTask {
        BinanceReportingTask
    }
}

impl Default for BinanceReportingTask {
    fn default() -> BinanceReportingTask {
        BinanceReportingTask::new()
    }
}

/// Aggregates portfolio figures within the workflow.
pub struct PortfolioAggregationTask;

impl PortfolioAggregationTask {
    pub fn new() -> PortfolioAggregationTask {
        PortfolioAggregationTask
    }
}

impl Default for PortfolioAggregationTask {
    fn default() -> PortfolioAggregationTask {
        PortfolioAggregationTask::new()
    }
}

/// Selects portfolio entries within the workflow.
pub struct PortfolioSelectionTask;

impl PortfolioSelectionTask {
    pub fn new() -> PortfolioSelectionTask {
        PortfolioSelectionTask
    }
}

impl Default for PortfolioSelectionTask {
    fn default() -> PortfolioSelectionTask {
        PortfolioSelectionTask::new()
    }
}

/// Switches trading regimens within the workflow.
pub struct RegimenSwitchingTask;

impl RegimenSwitchingTask {
    pub fn new() -> RegimenSwitchingTask {
        RegimenSwitchingTask
    }
}

impl Default for RegimenSwitchingTask {
    fn default() -> RegimenSwitchingTask {
        RegimenSwitchingTask::new()
    }
}

/// Runs Binance exchange operations within the workflow.
pub struct BinanceOperationsTask;

impl BinanceOperationsTask {
    pub fn new() -> BinanceOperationsTask {
        BinanceOperationsTask
    }
}

impl Default for BinanceOperationsTask {
    fn default() -> BinanceOperationsTask {
        BinanceOperationsTask::new()
    }
}

/// Opens the conversation: prompts the model with the user's input.
pub struct EntryInteractionTask {
    /// The system prompt handed to the language model.
    pub system_prompt: String,
}

impl EntryInteractionTask {
    pub fn new(system_prompt: String) -> (r: EntryInteractionTask)
        ensures
            r.system_prompt == system_prompt,
    {
        EntryInteractionTask { system_prompt }
    }
}

/// Reports on the portfolio within the workflow.
pub struct PortfolioReportingTask;

impl PortfolioReportingTask {
    pub fn new() -> PortfolioReportingTask {
        PortfolioReportingTask
    }
}

impl Default for PortfolioReportingTask {
    fn default() -> PortfolioReportingTask {
        PortfolioReportingTask::new()
    }
}

/// Aggregates regimen figures within the workflow.
pub struct RegimenAggregationTask;

impl RegimenAggregationTask {
    pub fn new() -> RegimenAggregationTask {
        RegimenAggregationTask
    }
}

impl Default for RegimenAggregationTask {
    fn default() -> RegimenAggregationTask {
        RegimenAggregationTask::new()
    }
}

/// Evaluates trading regimens within the workflow.
pub struct RegimenEvaluationTask;

impl RegimenEvaluationTask {
    pub fn new() -> RegimenEvaluationTask {
        RegimenEvaluationTask
    }
}

impl Default for RegimenEvaluationTask {
    fn default() -> RegimenEvaluationTask {
        RegimenEvaluationTask::new()
    }
}

/// Reports on trading regimens within the workflow.
pub struct RegimenReportingTask;

impl RegimenReportingTask {
    pub fn new() -> RegimenReportingTask {
        RegimenReportingTask
    }
}

impl Default for RegimenReportingTask {
    fn default() -> RegimenReportingTask {
        RegimenReportingTask::new()
    }
}

/// Selects a trading regimen within the workflow.
pub struct RegimenSelectionTask;

impl RegimenSelectionTask {
    pub fn new() -> RegimenSelectionTask {
        RegimenSelectionTask
    }
}

impl Default for RegimenSelectionTask {
    fn default() -> RegimenSelectionTask {
        RegimenSelectionTask::new()
    }
}

/// Produces the final reply within the workflow.
pub struct ReplyGenerationTask;

impl ReplyGenerationTask {
    pub fn new() -> ReplyGenerationTask {
        ReplyGenerationTask
    }
}

impl Default for ReplyGenerationTask {
    fn default() -> ReplyGenerationTask {
        ReplyGenerationTask::new()
    }
}

} // verus!
