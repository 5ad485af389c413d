//! Chart rendering logic with machine-checked contracts.
pub mod accuracy;
pub mod approximation;
pub mod aspect;
pub mod bands;
pub mod bar;
pub mod batch;
pub mod bounds;
pub mod cartography;
pub mod categories;
pub mod cell;
pub mod channel;
pub mod clipping;
pub mod colour;
pub mod colour_override;
pub mod composition;
pub mod contour;
pub mod covering;
pub mod dash;
pub mod dashing;
pub mod decimal;
pub mod density;
pub mod dot;
pub mod drawing;
pub mod euclid;
pub mod even_places;
pub mod extents;
pub mod fit_placement;
pub mod fits;
pub mod fitting;
pub mod folds;
pub mod geo;
pub mod geo_mark;
pub mod geojson;
pub mod graticule_placement;
pub mod grid_placement;
pub mod gridding;
pub mod hexbin;
pub mod hexgrid;
pub mod highlight;
pub mod infer;
pub mod ink;
pub mod json;
pub mod kde;
pub mod lattice;
pub mod layout;
pub mod lettering;
pub mod line;
pub mod mark;
pub mod mark_placement;
pub mod meshing;
pub mod mirrors;
pub mod nearest;
pub mod nearness;
pub mod notices;
pub mod number;
pub mod numerals;
pub mod paint;
pub mod pins;
pub mod placement;
pub mod plot;
pub mod projection;
pub mod proportions;
pub mod ramp;
pub mod ramp_blends;
pub mod raster;
pub mod reading;
pub mod rect;
pub mod regression;
pub mod remainder;
pub mod residual;
pub mod root;
pub mod root_accuracy;
pub mod rounding;
pub mod rule;
pub mod sample_notice;
pub mod sample_policy;
pub mod scale;
pub mod scale_set;
pub mod scene;
pub mod scheme;
pub mod selection;
pub mod selection_placement;
pub mod shading;
pub mod shortest;
pub mod single;
pub mod sorting;
pub mod standing;
pub mod straight;
pub mod student;
pub mod text;
pub mod text_mark;
pub mod union;
pub mod wholes;
pub mod widget_placement;
pub mod widgets;
pub mod words;
