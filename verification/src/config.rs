use vstd::prelude::*;

verus! {

/// A single-choice classification question: one class out of `classes`
/// may be selected, with an optional preselected answer.
pub struct MulticlassConfig {
    pub name: String,
    pub classes: Vec<String>,
    pub default: Option<String>,
}

/// A multi-choice classification question: any subset of `classes` may
/// be selected, with an optional preselected answer set.
pub struct MultilabelConfig {
    pub name: String,
    pub classes: Vec<String>,
    pub default: Option<Vec<String>>,
}

/// The static description of an annotation project handed over the
/// application boundary.
pub struct ProjectConfig {
    pub project_name: String,
    pub input_dir: String,
    pub output_dir: String,
    pub is_segmentation: bool,
    pub is_classification: bool,
    pub is_instance_segmentation: bool,
    pub has_text_description: bool,
    pub segmentation_classes: Option<Vec<String>>,
    pub classification_classes: Option<Vec<MulticlassConfig>>,
    pub classification_multilabel: Option<MultilabelConfig>,
    pub text_names: Option<Vec<String>>,
}

/// The per-image payload handed over the application boundary.
pub struct ImageConfig {
    pub image_path: String,
    pub mask_data: Option<Vec<String>>,
    pub segmentation_classes: Option<Vec<String>>,
    pub classification_classes: Option<Vec<String>>,
    pub classification_multilabel: Option<Vec<String>>,
    pub texts: Option<Vec<String>>,
    pub width: u32,
    pub height: u32,
}

/// The envelope every boundary operation answers with.
pub struct Response<T> {
    pub success: bool,
    pub data: Option<T>,
    pub error: Option<String>,
}

impl<T> Response<T> {
    /// A successful answer carrying a value.
    pub fn done(data: T) -> (r: Response<T>)
        ensures
            r.success,
            r.data matches Some(d) && d == data,
            r.error is None,
    {
        Response { success: true, data: Some(data), error: None }
    }

    /// A failed answer carrying a message.
    pub fn failed(error: String) -> (r: Response<T>)
        ensures
            !r.success,
            r.data is None,
            r.error matches Some(e) && e == error,
    {
        Response { success: false, data: None, error: Some(error) }
    }
}

} // verus!
