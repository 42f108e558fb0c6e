//! The document: pages of frames, and master pages.
use vstd::prelude::*;
use vstd::string::StringExecFns;
use crate::image_box::{FitMode as ImageFit, ImageBox, ImageModel};
use crate::svg_box::{FitMode as SvgFit, SvgBox, SvgModel};
use crate::text_box::{
    default_frame, new_model, BoxModel, EditState, FrameProps, TextAlign, TextBox,
};
use crate::utf8_text::{decimal, usize_to_decimal};

verus! {

#[derive(Debug, Clone)]
pub struct Document {
    pub title: String,
    pub pages: Vec<Page>,
    /// Page width in millimetres, as the bit pattern of its IEEE-754 double.
    pub width: u64,
    /// Page height in millimetres, as the bit pattern of its IEEE-754 double.
    pub height: u64,
    pub master_pages: Vec<MasterPage>,
}

#[derive(Debug, Clone)]
pub struct Page {
    pub items: Vec<Item>,
    pub master_page: Option<String>,
}

#[derive(Debug, Clone)]
pub struct MasterPage {
    pub id: String,
    pub name: String,
    pub items: Vec<Item>,
}

/// A frame on a page. Its geometry is in millimetres, each value held as the
/// bit pattern of its IEEE-754 double.
#[derive(Debug, Clone)]
pub struct Item {
    pub id: String,
    pub x: u64,
    pub y: u64,
    pub width: u64,
    pub height: u64,
    pub rotation: u64,
    pub show_border: bool,
    pub content: ItemContent,
}

#[derive(Debug, Clone)]
pub enum ItemContent {
    Text(TextBox),
    Image(ImageBox),
    Svg(SvgBox),
    Shape,
}

#[derive(Debug, Clone, Copy, PartialEq, Eq, Structural)]
pub enum ItemType {
    TextFrame,
    ImageFrame,
    SvgFrame,
    Shape,
}

/// Whether a frame without the setting shows its border.
pub fn default_show_border() -> (r: bool)
    ensures
        r,
{
    true
}

// ── The abstract model ───────────────────────────────────────────────────────

pub enum ContentModel {
    Text(BoxModel),
    Image(ImageModel),
    Svg(SvgModel),
    Shape,
}

pub struct ItemModel {
    pub id: Seq<char>,
    pub x: u64,
    pub y: u64,
    pub width: u64,
    pub height: u64,
    pub rotation: u64,
    pub show_border: bool,
    pub content: ContentModel,
}

pub struct PageModel {
    pub items: Seq<ItemModel>,
    pub master_page: Option<Seq<char>>,
}

pub struct MasterModel {
    pub id: Seq<char>,
    pub name: Seq<char>,
    pub items: Seq<ItemModel>,
}

pub struct DocModel {
    pub title: Seq<char>,
    pub pages: Seq<PageModel>,
    pub width: u64,
    pub height: u64,
    pub master_pages: Seq<MasterModel>,
}

impl ItemContent {
    pub open spec fn model(&self) -> ContentModel {
        match self {
            ItemContent::Text(tb) => ContentModel::Text(tb.model()),
            ItemContent::Image(ib) => ContentModel::Image(ib.model()),
            ItemContent::Svg(sb) => ContentModel::Svg(sb.model()),
            ItemContent::Shape => ContentModel::Shape,
        }
    }
}

impl Item {
    pub open spec fn model(&self) -> ItemModel {
        ItemModel {
            id: self.id@,
            x: self.x,
            y: self.y,
            width: self.width,
            height: self.height,
            rotation: self.rotation,
            show_border: self.show_border,
            content: self.content.model(),
        }
    }
}

pub open spec fn item_models(items: Seq<Item>) -> Seq<ItemModel> {
    items.map_values(|i: Item| i.model())
}

impl Page {
    pub open spec fn model(&self) -> PageModel {
        PageModel {
            items: item_models(self.items@),
            master_page: match self.master_page {
                Some(m) => Some(m@),
                None => None,
            },
        }
    }
}

pub open spec fn page_models(pages: Seq<Page>) -> Seq<PageModel> {
    pages.map_values(|p: Page| p.model())
}

impl MasterPage {
    pub open spec fn model(&self) -> MasterModel {
        MasterModel { id: self.id@, name: self.name@, items: item_models(self.items@) }
    }
}

pub open spec fn master_models(masters: Seq<MasterPage>) -> Seq<MasterModel> {
    masters.map_values(|m: MasterPage| m.model())
}

impl Document {
    pub open spec fn model(&self) -> DocModel {
        DocModel {
            title: self.title@,
            pages: page_models(self.pages@),
            width: self.width,
            height: self.height,
            master_pages: master_models(self.master_pages@),
        }
    }
}

// ── Copies ───────────────────────────────────────────────────────────────────

impl ItemContent {
    /// An equal copy.
    pub fn clone_content(&self) -> (r: ItemContent)
        ensures
            r.model() == self.model(),
    {
        match self {
            ItemContent::Text(tb) => ItemContent::Text(tb.clone_box()),
            ItemContent::Image(ib) => ItemContent::Image(ib.clone_image()),
            ItemContent::Svg(sb) => ItemContent::Svg(sb.clone_svg()),
            ItemContent::Shape => ItemContent::Shape,
        }
    }
}

impl Item {
    /// An equal copy.
    pub fn clone_item(&self) -> (r: Item)
        ensures
            r.model() == self.model(),
    {
        Item {
            id: self.id.clone(),
            x: self.x,
            y: self.y,
            width: self.width,
            height: self.height,
            rotation: self.rotation,
            show_border: self.show_border,
            content: self.content.clone_content(),
        }
    }
}

/// An equal copy of a list of items.
pub fn clone_items(items: &Vec<Item>) -> (r: Vec<Item>)
    ensures
        item_models(r@) == item_models(items@),
{
    let mut r: Vec<Item> = Vec::new();
    let n = items.len();
    for i in 0..n
        invariant
            n == items@.len(),
            item_models(r@) == item_models(items@.take(i as int)),
    {
        let it = items[i].clone_item();
        let ghost before = r@;
        r.push(it);
        assert(item_models(r@) =~= item_models(before).push(it.model()));
        assert(items@.take(i + 1) =~= items@.take(i as int).push(items@[i as int]));
        assert(item_models(items@.take(i + 1)) =~= item_models(items@.take(i as int)).push(
            items@[i as int].model(),
        ));
    }
    assert(items@.take(n as int) =~= items@);
    r
}

// ── Empty copies ─────────────────────────────────────────────────────────────

/// A frame of the same kind and look with no content.
pub open spec fn empty_content(c: ContentModel) -> ContentModel {
    match c {
        ContentModel::Text(b) => ContentModel::Text(
            BoxModel {
                state: EditState { alignment: b.state.alignment, ..new_model(Seq::empty()).state },
                frame: FrameProps {
                    font_description: b.frame.font_description,
                    padding: b.frame.padding,
                    line_spacing: b.frame.line_spacing,
                    ..default_frame()
                },
                ..new_model(Seq::empty())
            },
        ),
        ContentModel::Image(_) => ContentModel::Image(
            ImageModel { image_path: None, fit_mode: ImageFit::ImageToFrame },
        ),
        ContentModel::Svg(_) => ContentModel::Svg(
            SvgModel { svg_path: Seq::empty(), fit_mode: SvgFit::Proportional },
        ),
        ContentModel::Shape => ContentModel::Shape,
    }
}

impl ItemContent {
    /// A content of the same kind with nothing in it; a text frame keeps its
    /// font, padding, line spacing and alignment.
    pub fn empty_clone(&self) -> (r: ItemContent)
        ensures
            r.model() == empty_content(self.model()),
    {
        match self {
            ItemContent::Text(tb) => {
                let mut empty = TextBox::new(String::new());
                empty.font_description = tb.font_description.clone();
                empty.padding = tb.padding;
                empty.line_spacing = tb.line_spacing;
                empty.alignment = tb.alignment;
                ItemContent::Text(empty)
            },
            ItemContent::Image(_) => ItemContent::Image(ImageBox::default()),
            ItemContent::Svg(_) => ItemContent::Svg(SvgBox::default()),
            ItemContent::Shape => ItemContent::Shape,
        }
    }

    pub fn item_type(&self) -> (r: ItemType)
        ensures
            r == content_type(self.model()),
    {
        match self {
            ItemContent::Text(_) => ItemType::TextFrame,
            ItemContent::Image(_) => ItemType::ImageFrame,
            ItemContent::Svg(_) => ItemType::SvgFrame,
            ItemContent::Shape => ItemType::Shape,
        }
    }
}

pub open spec fn content_type(c: ContentModel) -> ItemType {
    match c {
        ContentModel::Text(_) => ItemType::TextFrame,
        ContentModel::Image(_) => ItemType::ImageFrame,
        ContentModel::Svg(_) => ItemType::SvgFrame,
        ContentModel::Shape => ItemType::Shape,
    }
}

impl Item {
    /// A frame with the same geometry and look, no content and an empty id.
    pub fn empty_clone(&self) -> (r: Item)
        ensures
            r.model() == (ItemModel {
                id: Seq::empty(),
                content: empty_content(self.content.model()),
                ..self.model()
            }),
    {
        Item {
            id: String::new(),
            x: self.x,
            y: self.y,
            width: self.width,
            height: self.height,
            rotation: self.rotation,
            show_border: self.show_border,
            content: self.content.empty_clone(),
        }
    }
}

// ── Defaults ─────────────────────────────────────────────────────────────────

pub const A4_WIDTH_BITS: u64 = 0x406a400000000000;
pub const A4_HEIGHT_BITS: u64 = 0x4072900000000000;

impl Default for Page {
    fn default() -> (r: Self)
        ensures
            r.model() == (PageModel { items: Seq::empty(), master_page: None }),
    {
        let r = Page { items: Vec::new(), master_page: None };
        assert(item_models(r.items@) =~= Seq::empty());
        r
    }
}

impl Default for Document {
    /// A4 document with one page holding one sample text frame.
    fn default() -> (r: Self)
        ensures
            r.model().title == "New Document"@,
            r.model().width == A4_WIDTH_BITS,
            r.model().height == A4_HEIGHT_BITS,
            r.model().master_pages.len() == 0,
            r.model().pages.len() == 1,
            r.model().pages[0].master_page is None,
            r.model().pages[0].items.len() == 1,
            r.model().pages[0].items[0] == (ItemModel {
                id: "1"@,
                x: 0x4034000000000000,
                y: 0x4034000000000000,
                width: 0x4065400000000000,
                height: 0x4049000000000000,
                rotation: 0,
                show_border: true,
                content: ContentModel::Text(new_model("Sample text for the first frame."@)),
            }),
    {
        let item = Item {
            id: "1".to_owned(),
            x: 0x4034000000000000,
            y: 0x4034000000000000,
            width: 0x4065400000000000,
            height: 0x4049000000000000,
            rotation: 0,
            show_border: true,
            content: ItemContent::Text(TextBox::new("Sample text for the first frame.".to_owned())),
        };
        let mut items = Vec::new();
        items.push(item);
        let mut pages = Vec::new();
        pages.push(Page { items, master_page: None });
        let r = Document {
            title: "New Document".to_owned(),
            pages,
            width: A4_WIDTH_BITS,
            height: A4_HEIGHT_BITS,
            master_pages: Vec::new(),
        };
        assert(r.model().pages[0].items[0] == item.model());
        r
    }
}

/// "Master Page n".
pub open spec fn master_page_name(n: nat) -> Seq<char> {
    "Master Page "@ + decimal(n)
}

/// The name given to the `n`-th master page.
pub fn master_page_name_for(n: usize) -> (r: String)
    ensures
        r@ == master_page_name(n as nat),
{
    let mut name = "Master Page ".to_owned();
    let digits = usize_to_decimal(n);
    name.append(digits.as_str());
    name
}

} // verus!
